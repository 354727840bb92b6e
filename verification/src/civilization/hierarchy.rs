//! Emergent hierarchy detection.
use vstd::prelude::*;

verus! {

/// Role specialization detected from entity behavior patterns.
#[derive(Debug, Clone, Copy, PartialEq, Eq, Hash, Structural)]
pub enum DetectedRole {
    /// Entity frequently gathers food.
    Gatherer,
    /// Entity frequently fights or defends.
    Warrior,
    /// Entity frequently builds structures.
    Builder,
    /// Entity moves between locations (potential trader).
    Explorer,
    /// No clear specialization detected.
    Generalist,
}



/// The role of an entity from its activity counters: none without activity,
/// an explorer when it traveled far (over 500 units) with fewer than 10
/// activities, else the most frequent activity (feeding before fighting
/// before building on ties).
pub open spec fn role_of(feed_count: u64, attack_count: u64, build_count: u64, far_traveled: bool) -> DetectedRole {
    let total = feed_count + attack_count + build_count;
    if total == 0 {
        DetectedRole::Generalist
    } else if far_traveled && total < 10 {
        DetectedRole::Explorer
    } else if feed_count >= attack_count && feed_count >= build_count {
        DetectedRole::Gatherer
    } else if attack_count >= build_count {
        DetectedRole::Warrior
    } else {
        DetectedRole::Builder
    }
}

/// Detect role specialization from behavior counters; `far_traveled` tells
/// whether the entity moved more than 500 units.
pub fn detect_role_kind(feed_count: u64, attack_count: u64, build_count: u64, far_traveled: bool) -> (r: DetectedRole)
    requires
        feed_count + attack_count + build_count <= u64::MAX,
    ensures
        r == role_of(feed_count, attack_count, build_count, far_traveled),
{
    let total = feed_count + attack_count + build_count;
    if total == 0 {
        return DetectedRole::Generalist;
    }
    if far_traveled && total < 10 {
        return DetectedRole::Explorer;
    }
    let mut max_count = feed_count;
    if attack_count > max_count {
        max_count = attack_count;
    }
    if build_count > max_count {
        max_count = build_count;
    }
    if max_count == feed_count {
        DetectedRole::Gatherer
    } else if max_count == attack_count {
        DetectedRole::Warrior
    } else {
        DetectedRole::Builder
    }
}

/// Law: an entity with some activity and no long travel gets the role of
/// an activity it did most.
pub proof fn law_role_is_a_most_frequent_activity(feed: u64, attack: u64, build: u64)
    requires
        feed + attack + build > 0,
    ensures
        role_of(feed, attack, build, false) == DetectedRole::Gatherer ==> feed >= attack && feed >= build,
        role_of(feed, attack, build, false) == DetectedRole::Warrior ==> attack >= feed && attack >= build,
        role_of(feed, attack, build, false) == DetectedRole::Builder ==> build >= feed && build >= attack,
        role_of(feed, attack, build, false) != DetectedRole::Explorer,
        role_of(feed, attack, build, false) != DetectedRole::Generalist,
{
}

/// The number of times a role occurs in a list.
pub open spec fn count_role(roles: Seq<DetectedRole>, r: DetectedRole) -> nat
    decreases roles.len(),
{
    if roles.len() == 0 {
        0
    } else {
        count_role(roles.drop_last(), r) + if roles.last() == r {
            1nat
        } else {
            0nat
        }
    }
}

/// Whether a distribution lists a role.
pub open spec fn lists_role(dist: Seq<(DetectedRole, usize)>, r: DetectedRole) -> bool {
    exists|k: int| 0 <= k < dist.len() && #[trigger] dist[k].0 == r
}

/// The position of a role in a distribution, or its length when absent.
fn find_role(dist: &Vec<(DetectedRole, usize)>, role: DetectedRole) -> (k: usize)
    ensures
        k <= dist@.len(),
        forall|j: int| 0 <= j < k ==> dist@[j].0 != role,
        k < dist@.len() ==> dist@[k as int].0 == role,
{
    let mut k: usize = 0;
    while k < dist.len() && dist[k].0 != role
        invariant
            k <= dist@.len(),
            forall|j: int| 0 <= j < k ==> dist@[j].0 != role,
        decreases dist@.len() - k,
    {
        k = k + 1;
    }
    k
}

/// The distribution of roles in a tribe: each role that occurs, once, with
/// the number of entities in it (in order of first occurrence).
pub fn role_distribution(roles: &[DetectedRole]) -> (dist: Vec<(DetectedRole, usize)>)
    ensures
        forall|a: int, b: int| 0 <= a < b < dist@.len() ==> #[trigger] dist@[a].0 != #[trigger] dist@[b].0,
        forall|k: int|
            0 <= k < dist@.len() ==> #[trigger] dist@[k].1 == count_role(roles@, dist@[k].0) && dist@[k].1 > 0,
        forall|r: DetectedRole|
            #[trigger] count_role(roles@, r) > 0 ==> lists_role(dist@, r),
{
    let mut dist: Vec<(DetectedRole, usize)> = Vec::new();
    let n = roles.len();
    let mut i: usize = 0;
    while i < n
        invariant
            n == roles@.len(),
            i <= n,
            dist@.len() <= i,
            forall|a: int, b: int| 0 <= a < b < dist@.len() ==> #[trigger] dist@[a].0 != #[trigger] dist@[b].0,
            forall|k: int|
                0 <= k < dist@.len() ==> #[trigger] dist@[k].1 == count_role(roles@.take(i as int), dist@[k].0)
                    && dist@[k].1 > 0 && dist@[k].1 <= i,
            forall|r: DetectedRole|
                #[trigger] count_role(roles@.take(i as int), r) > 0 ==> lists_role(dist@, r),
        decreases n - i,
    {
        let role = roles[i];
        proof {
            assert(roles@.take(i + 1).drop_last() =~= roles@.take(i as int));
            assert(roles@.take(i + 1).last() == role);
        }
        let k = find_role(&dist, role);
        let ghost before = dist@;
        if k < dist.len() {
            let c = dist[k].1;
            dist.set(k, (role, c + 1));
            proof {
                assert forall|j: int| 0 <= j < dist@.len() implies #[trigger] dist@[j].1 == count_role(
                    roles@.take(i + 1),
                    dist@[j].0,
                ) && dist@[j].1 > 0 && dist@[j].1 <= i + 1 by {
                    if j != k {
                        assert(dist@[j] == before[j]);
                        assert(before[j].0 != before[k as int].0);
                    }
                }
                assert forall|r: DetectedRole| #[trigger] count_role(roles@.take(i + 1), r) > 0 implies lists_role(dist@, r) by {
                    if r != role {
                        assert(count_role(roles@.take(i as int), r) > 0);
                        let j = choose|j: int| 0 <= j < before.len() && #[trigger] before[j].0 == r;
                        assert(dist@[j].0 == r);
                    } else {
                        assert(dist@[k as int].0 == r);
                    }
                }
            }
        } else {
            dist.push((role, 1));
            proof {
                assert(count_role(roles@.take(i as int), role) == 0) by {
                    if count_role(roles@.take(i as int), role) > 0 {
                        let j = choose|j: int| 0 <= j < before.len() && #[trigger] before[j].0 == role;
                    }
                }
                assert forall|j: int| 0 <= j < dist@.len() implies #[trigger] dist@[j].1 == count_role(
                    roles@.take(i + 1),
                    dist@[j].0,
                ) && dist@[j].1 > 0 && dist@[j].1 <= i + 1 by {
                    if j < before.len() {
                        assert(dist@[j] == before[j]);
                    }
                }
                assert forall|r: DetectedRole| #[trigger] count_role(roles@.take(i + 1), r) > 0 implies lists_role(dist@, r) by {
                    if r != role {
                        assert(count_role(roles@.take(i as int), r) > 0);
                        let j = choose|j: int| 0 <= j < before.len() && #[trigger] before[j].0 == r;
                        assert(dist@[j].0 == r);
                    } else {
                        assert(dist@[before.len() as int].0 == r);
                    }
                }
            }
        }
        i = i + 1;
    }
    proof {
        assert(roles@.take(n as int) =~= roles@);
    }
    dist
}

} // verus!
