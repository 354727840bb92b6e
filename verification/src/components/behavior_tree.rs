//! Behaviour-tree vocabulary shared by the decision systems.
use vstd::prelude::*;

verus! {

/// Result of ticking a behavior tree node.
#[derive(Debug, Clone, Copy, PartialEq, Eq, Structural)]
pub enum BtStatus {
    Success,
    Failure,
    Running,
}

/// Which drive to check in a CheckDrive condition.
#[derive(Debug, Clone, Copy, PartialEq, Eq, Structural)]
pub enum DriveKind {
    Hunger,
    Fear,
    Curiosity,
    SocialNeed,
    Aggression,
    ReproductiveUrge,
}

/// Comparison operator for condition nodes.
#[derive(Debug, Clone, Copy, PartialEq, Eq, Structural)]
pub enum Comparison {
    GreaterThan,
    LessThan,
    GreaterOrEqual,
    LessOrEqual,
}



/// The structure of a behavior tree, its leaves (conditions and actions)
/// numbered. What a leaf yields depends on its parameters and on the
/// entity's real-valued state, and is given to the tick as a `LeafOutcome`.
#[derive(Debug, PartialEq, Eq)]
pub enum BtShape {
    /// Run children in order; fail on first failure, succeed if all succeed.
    Sequence(Vec<BtShape>),
    /// Try children in order; succeed on first success, fail if all fail.
    Selector(Vec<BtShape>),
    /// Invert child's result (Success <-> Failure, Running unchanged).
    Inverter(Box<BtShape>),
    /// Always return Success regardless of child's result.
    AlwaysSucceed(Box<BtShape>),
    /// A condition or action node, by its number.
    Leaf(usize),
}

/// What a leaf yields when ticked: its status, and whether it produces an
/// action.
#[derive(Debug, Clone, Copy, PartialEq, Eq, Structural)]
pub struct LeafOutcome {
    pub status: BtStatus,
    pub acts: bool,
}

/// Every leaf of a tree is numbered below `n`.
pub open spec fn leaves_within(node: BtShape, n: nat) -> bool
    decreases node, 0nat,
{
    match node {
        BtShape::Sequence(ch) => all_within(ch@, 0, n),
        BtShape::Selector(ch) => all_within(ch@, 0, n),
        BtShape::Inverter(c) => leaves_within(*c, n),
        BtShape::AlwaysSucceed(c) => leaves_within(*c, n),
        BtShape::Leaf(i) => i < n,
    }
}

/// Every leaf of the children from `i` on is numbered below `n`.
pub open spec fn all_within(ch: Seq<BtShape>, i: int, n: nat) -> bool
    decreases ch, ch.len() - i,
{
    if 0 <= i < ch.len() {
        leaves_within(ch[i], n) && all_within(ch, i + 1, n)
    } else {
        true
    }
}

/// Success and Failure swapped.
pub open spec fn inverted(s: BtStatus) -> BtStatus {
    match s {
        BtStatus::Success => BtStatus::Failure,
        BtStatus::Failure => BtStatus::Success,
        BtStatus::Running => BtStatus::Running,
    }
}

/// The status of a tick and the leaf whose action it produces, if any.
pub open spec fn tick_result(node: BtShape, leaves: Seq<LeafOutcome>) -> (BtStatus, Option<usize>)
    decreases node, 0nat,
{
    match node {
        BtShape::Sequence(ch) => sequence_result(ch@, 0, None, leaves),
        BtShape::Selector(ch) => selector_result(ch@, 0, leaves),
        BtShape::Inverter(c) => {
            let r = tick_result(*c, leaves);
            (inverted(r.0), r.1)
        },
        BtShape::AlwaysSucceed(c) => (BtStatus::Success, tick_result(*c, leaves).1),
        BtShape::Leaf(i) => (
            leaves[i as int].status,
            if leaves[i as int].acts {
                Some(i)
            } else {
                None
            },
        ),
    }
}

/// A sequence from child `i` on, `last` the latest action so far: a failure
/// fails with no action, a running child runs with the latest action, and
/// when all succeed the sequence succeeds with the latest action.
pub open spec fn sequence_result(
    ch: Seq<BtShape>,
    i: int,
    last: Option<usize>,
    leaves: Seq<LeafOutcome>,
) -> (BtStatus, Option<usize>)
    decreases ch, ch.len() - i,
{
    if 0 <= i < ch.len() {
        let r = tick_result(ch[i], leaves);
        let latest = if r.1 is Some {
            r.1
        } else {
            last
        };
        match r.0 {
            BtStatus::Failure => (BtStatus::Failure, None),
            BtStatus::Running => (BtStatus::Running, latest),
            BtStatus::Success => sequence_result(ch, i + 1, latest, leaves),
        }
    } else {
        (BtStatus::Success, last)
    }
}

/// A selector from child `i` on: the first child that succeeds or runs
/// decides, with its action; when all fail the selector fails with none.
pub open spec fn selector_result(ch: Seq<BtShape>, i: int, leaves: Seq<LeafOutcome>) -> (
    BtStatus,
    Option<usize>,
)
    decreases ch, ch.len() - i,
{
    if 0 <= i < ch.len() {
        let r = tick_result(ch[i], leaves);
        match r.0 {
            BtStatus::Failure => selector_result(ch, i + 1, leaves),
            _ => r,
        }
    } else {
        (BtStatus::Failure, None)
    }
}

/// Tick a behavior tree: returns the status and the number of the leaf
/// whose action is produced (`None` for no action).
pub fn tick_bt(node: &BtShape, leaves: &[LeafOutcome]) -> (r: (BtStatus, Option<usize>))
    requires
        leaves_within(*node, leaves@.len()),
    ensures
        r == tick_result(*node, leaves@),
    decreases node,
{
    match node {
        BtShape::Sequence(children) => {
            let mut last: Option<usize> = None;
            let mut i: usize = 0;
            while i < children.len()
                invariant
                    i <= children@.len(),
                    all_within(children@, i as int, leaves@.len()),
                    sequence_result(children@, i as int, last, leaves@) == tick_result(*node, leaves@),
                    *node == BtShape::Sequence(*children),
                decreases children@.len() - i,
            {
                proof {
                    assert(decreases_to!(*node => children@[i as int]));
                }
                let (status, action) = tick_bt(&children[i], leaves);
                if action.is_some() {
                    last = action;
                }
                match status {
                    BtStatus::Failure => {
                        return (BtStatus::Failure, None);
                    },
                    BtStatus::Running => {
                        return (BtStatus::Running, last);
                    },
                    BtStatus::Success => {},
                }
                i = i + 1;
            }
            (BtStatus::Success, last)
        },
        BtShape::Selector(children) => {
            let mut i: usize = 0;
            while i < children.len()
                invariant
                    i <= children@.len(),
                    all_within(children@, i as int, leaves@.len()),
                    selector_result(children@, i as int, leaves@) == tick_result(*node, leaves@),
                    *node == BtShape::Selector(*children),
                decreases children@.len() - i,
            {
                proof {
                    assert(decreases_to!(*node => children@[i as int]));
                }
                let (status, action) = tick_bt(&children[i], leaves);
                match status {
                    BtStatus::Success => {
                        return (BtStatus::Success, action);
                    },
                    BtStatus::Running => {
                        return (BtStatus::Running, action);
                    },
                    BtStatus::Failure => {},
                }
                i = i + 1;
            }
            (BtStatus::Failure, None)
        },
        BtShape::Inverter(child) => {
            let (status, action) = tick_bt(child, leaves);
            let flipped = match status {
                BtStatus::Success => BtStatus::Failure,
                BtStatus::Failure => BtStatus::Success,
                BtStatus::Running => BtStatus::Running,
            };
            (flipped, action)
        },
        BtShape::AlwaysSucceed(child) => {
            let (_status, action) = tick_bt(child, leaves);
            (BtStatus::Success, action)
        },
        BtShape::Leaf(i) => {
            let o = leaves[*i];
            (o.status, if o.acts {
                Some(*i)
            } else {
                None
            })
        },
    }
}



/// The number of nodes of a tree.
pub open spec fn count_nodes(node: BtShape) -> nat
    decreases node, 0nat,
{
    match node {
        BtShape::Sequence(ch) => 1 + count_from(ch@, 0),
        BtShape::Selector(ch) => 1 + count_from(ch@, 0),
        BtShape::Inverter(c) => 1 + count_nodes(*c),
        BtShape::AlwaysSucceed(c) => 1 + count_nodes(*c),
        BtShape::Leaf(_) => 1,
    }
}

/// The number of nodes of the children from `i` on.
pub open spec fn count_from(ch: Seq<BtShape>, i: int) -> nat
    decreases ch, ch.len() - i,
{
    if 0 <= i < ch.len() {
        count_nodes(ch[i]) + count_from(ch, i + 1)
    } else {
        0
    }
}

/// The depth of a tree: 1 for a leaf.
pub open spec fn tree_depth(node: BtShape) -> nat
    decreases node, 0nat,
{
    match node {
        BtShape::Sequence(ch) => 1 + depth_from(ch@, 0),
        BtShape::Selector(ch) => 1 + depth_from(ch@, 0),
        BtShape::Inverter(c) => 1 + tree_depth(*c),
        BtShape::AlwaysSucceed(c) => 1 + tree_depth(*c),
        BtShape::Leaf(_) => 1,
    }
}

/// The greatest depth of the children from `i` on (0 if none).
pub open spec fn depth_from(ch: Seq<BtShape>, i: int) -> nat
    decreases ch, ch.len() - i,
{
    if 0 <= i < ch.len() {
        let d = tree_depth(ch[i]);
        let rest = depth_from(ch, i + 1);
        if d >= rest {
            d
        } else {
            rest
        }
    } else {
        0
    }
}

/// Count the total number of nodes in a tree.
pub fn node_count(node: &BtShape) -> (n: usize)
    requires
        count_nodes(*node) <= usize::MAX,
    ensures
        n == count_nodes(*node),
    decreases node,
{
    match node {
        BtShape::Sequence(children) | BtShape::Selector(children) => {
            let mut total: usize = 1;
            let mut i: usize = 0;
            while i < children.len()
                invariant
                    i <= children@.len(),
                    total + count_from(children@, i as int) == count_nodes(*node),
                    count_nodes(*node) <= usize::MAX,
                    *node == BtShape::Sequence(*children) || *node == BtShape::Selector(*children),
                decreases children@.len() - i,
            {
                proof {
                    assert(decreases_to!(*node => children@[i as int]));
                }
                let c = node_count(&children[i]);
                total = total + c;
                i = i + 1;
            }
            total
        },
        BtShape::Inverter(child) | BtShape::AlwaysSucceed(child) => 1 + node_count(child),
        BtShape::Leaf(_) => 1,
    }
}

/// Maximum depth of a tree.
pub fn depth(node: &BtShape) -> (d: usize)
    requires
        tree_depth(*node) <= usize::MAX,
    ensures
        d == tree_depth(*node),
    decreases node,
{
    match node {
        BtShape::Sequence(children) | BtShape::Selector(children) => {
            let n = children.len();
            let mut deepest: usize = 0;
            let mut i: usize = n;
            while i > 0
                invariant
                    i <= n,
                    n == children@.len(),
                    deepest == depth_from(children@, i as int),
                    1 + depth_from(children@, 0) == tree_depth(*node),
                    tree_depth(*node) <= usize::MAX,
                    *node == BtShape::Sequence(*children) || *node == BtShape::Selector(*children),
                decreases i,
            {
                i = i - 1;
                proof {
                    assert(decreases_to!(*node => children@[i as int]));
                    lemma_depth_from_bound(children@, 0, i as int);
                }
                let d = depth(&children[i]);
                if d >= deepest {
                    deepest = d;
                }
            }
            1 + deepest
        },
        BtShape::Inverter(child) | BtShape::AlwaysSucceed(child) => 1 + depth(child),
        BtShape::Leaf(_) => 1,
    }
}

proof fn lemma_depth_from_bound(ch: Seq<BtShape>, i: int, j: int)
    requires
        0 <= i <= j < ch.len(),
    ensures
        tree_depth(ch[j]) <= depth_from(ch, i),
        depth_from(ch, j + 1) <= depth_from(ch, i),
    decreases j - i,
{
    if i < j {
        lemma_depth_from_bound(ch, i + 1, j);
    }
}



/// Law: inverting twice gives back the child's status and action, and an
/// AlwaysSucceed node succeeds with its child's action.
pub proof fn law_inversion_and_success(c: BtShape, leaves: Seq<LeafOutcome>)
    ensures
        tick_result(BtShape::Inverter(Box::new(BtShape::Inverter(Box::new(c)))), leaves)
            == tick_result(c, leaves),
        tick_result(BtShape::AlwaysSucceed(Box::new(c)), leaves) == (
            BtStatus::Success,
            tick_result(c, leaves).1,
        ),
{
    let r = tick_result(c, leaves);
    assert(tick_result(BtShape::Inverter(Box::new(c)), leaves) == (inverted(r.0), r.1));
    assert(inverted(inverted(r.0)) == r.0);
}



proof fn lemma_sequence_all_succeed(ch: Seq<BtShape>, i: int, last: Option<usize>, leaves: Seq<LeafOutcome>)
    requires
        0 <= i <= ch.len(),
        forall|j: int| i <= j < ch.len() ==> (#[trigger] tick_result(ch[j], leaves)).0 == BtStatus::Success,
    ensures
        sequence_result(ch, i, last, leaves).0 == BtStatus::Success,
    decreases ch.len() - i,
{
    if i < ch.len() {
        let r = tick_result(ch[i], leaves);
        assert(r.0 == BtStatus::Success);
        let latest = if r.1 is Some {
            r.1
        } else {
            last
        };
        lemma_sequence_all_succeed(ch, i + 1, latest, leaves);
    }
}

proof fn lemma_selector_all_fail(ch: Seq<BtShape>, i: int, leaves: Seq<LeafOutcome>)
    requires
        0 <= i <= ch.len(),
        forall|j: int| i <= j < ch.len() ==> (#[trigger] tick_result(ch[j], leaves)).0 == BtStatus::Failure,
    ensures
        selector_result(ch, i, leaves) == (BtStatus::Failure, None::<usize>),
    decreases ch.len() - i,
{
    if i < ch.len() {
        assert(tick_result(ch[i], leaves).0 == BtStatus::Failure);
        lemma_selector_all_fail(ch, i + 1, leaves);
    }
}

/// Law: a sequence whose children all succeed succeeds, and a selector
/// whose children all fail fails with no action.
pub proof fn law_composites(ch: Vec<BtShape>, leaves: Seq<LeafOutcome>)
    ensures
        (forall|j: int| 0 <= j < ch@.len() ==> (#[trigger] tick_result(ch@[j], leaves)).0 == BtStatus::Success)
            ==> tick_result(BtShape::Sequence(ch), leaves).0 == BtStatus::Success,
        (forall|j: int| 0 <= j < ch@.len() ==> (#[trigger] tick_result(ch@[j], leaves)).0 == BtStatus::Failure)
            ==> tick_result(BtShape::Selector(ch), leaves) == (BtStatus::Failure, None::<usize>),
{
    if forall|j: int| 0 <= j < ch@.len() ==> (#[trigger] tick_result(ch@[j], leaves)).0 == BtStatus::Success {
        lemma_sequence_all_succeed(ch@, 0, None, leaves);
    }
    if forall|j: int| 0 <= j < ch@.len() ==> (#[trigger] tick_result(ch@[j], leaves)).0 == BtStatus::Failure {
        lemma_selector_all_fail(ch@, 0, leaves);
    }
}

} // verus!
