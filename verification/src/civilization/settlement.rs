//! Settlement detection: single-linkage clusters of tribe members.
use vstd::prelude::*;

verus! {

/// Minimum number of entities in a cluster to form a settlement.
pub const MIN_SETTLEMENT_POPULATION: usize = 3;

/// Whether points `i` and `j` are near each other.
pub open spec fn adj(near: Seq<Vec<bool>>, i: int, j: int) -> bool {
    near[i]@[j]
}

/// `near` is a square, symmetric table over `near.len()` points.
pub open spec fn nearness_table(near: Seq<Vec<bool>>) -> bool {
    &&& forall|i: int| 0 <= i < near.len() ==> (#[trigger] near[i])@.len() == near.len()
    &&& forall|i: int, j: int| 0 <= i < near.len() && 0 <= j < near.len() ==> adj(near, i, j) == adj(near, j, i)
}

/// Point `c[k]` is near a point of `c` before it.
pub open spec fn near_earlier(near: Seq<Vec<bool>>, c: Seq<usize>, k: int) -> bool {
    exists|m: int| 0 <= m < k && #[trigger] adj(near, c[m] as int, c[k] as int)
}

/// Point `x` is near some point of `c`.
pub open spec fn near_some(near: Seq<Vec<bool>>, c: Seq<usize>, x: int) -> bool {
    exists|m: int| 0 <= m < c.len() && #[trigger] adj(near, c[m] as int, x)
}

/// A set of visited points is closed: every neighbour of a visited point
/// is visited.
pub open spec fn closed_under(near: Seq<Vec<bool>>, visited: Seq<bool>) -> bool {
    forall|x: int, y: int|
        0 <= x < near.len() && 0 <= y < near.len() && #[trigger] visited[x] && #[trigger] adj(near, x, y)
            ==> visited[y]
}

/// A cluster: non-empty, without repeats, of points below `n`, its first
/// point the smallest; each later point near an earlier one; every
/// neighbour of a point of it in it.
pub open spec fn is_cluster(near: Seq<Vec<bool>>, c: Seq<usize>) -> bool {
    &&& c.len() > 0
    &&& c.no_duplicates()
    &&& forall|k: int| 0 <= k < c.len() ==> #[trigger] c[k] < near.len() && c[0] <= c[k]
    &&& forall|k: int| 0 < k < c.len() ==> #[trigger] near_earlier(near, c, k)
    &&& forall|k: int, j: int|
        0 <= k < c.len() && 0 <= j < near.len() && #[trigger] adj(near, c[k] as int, j) ==> c.contains(j as usize)
}

/// The number of unvisited points.
pub open spec fn count_unvisited(v: Seq<bool>) -> nat
    decreases v.len(),
{
    if v.len() == 0 {
        0
    } else {
        count_unvisited(v.drop_last()) + if v.last() {
            0nat
        } else {
            1nat
        }
    }
}

/// Marking an unvisited point visited leaves one fewer unvisited.
pub proof fn lemma_visit_one(v: Seq<bool>, i: int)
    requires
        0 <= i < v.len(),
        !v[i],
    ensures
        count_unvisited(v.update(i, true)) + 1 == count_unvisited(v),
    decreases v.len(),
{
    let w = v.update(i, true);
    if i == v.len() - 1 {
        assert(w.drop_last() =~= v.drop_last());
    } else {
        lemma_visit_one(v.drop_last(), i);
        assert(w.drop_last() =~= v.drop_last().update(i, true));
    }
}

/// The stack after scanning the points below `j` as neighbours of `idx`:
/// each unvisited neighbour is pushed, in increasing order.
pub open spec fn dfs_push(near: Seq<Vec<bool>>, v: Seq<bool>, idx: int, stack: Seq<usize>, j: int) -> Seq<usize>
    decreases j,
{
    if j <= 0 {
        stack
    } else {
        let s = dfs_push(near, v, idx, stack, j - 1);
        if !v[j - 1] && adj(near, idx, j - 1) {
            s.push((j - 1) as usize)
        } else {
            s
        }
    }
}

/// A depth-first search with a stack, run until the stack is empty: the
/// visited points and the points of the cluster in the order visited. Each
/// step pops the top point; a visited one is dropped; an unvisited one is
/// marked visited, appended to the cluster, and its unvisited neighbours
/// are pushed in increasing order.
pub open spec fn dfs_run(near: Seq<Vec<bool>>, v: Seq<bool>, stack: Seq<usize>, cluster: Seq<usize>) -> (
    Seq<bool>,
    Seq<usize>,
)
    decreases count_unvisited(v), stack.len(),
{
    if stack.len() == 0 {
        (v, cluster)
    } else {
        let idx = stack.last();
        let rest = stack.drop_last();
        if idx >= v.len() || v[idx as int] {
            dfs_run(near, v, rest, cluster)
        } else {
            let v2 = v.update(idx as int, true);
            proof {
                lemma_visit_one(v, idx as int);
            }
            dfs_run(near, v2, dfs_push(near, v2, idx as int, rest, near.len() as int), cluster.push(idx))
        }
    }
}

/// The clusters found scanning the points from `i` on in increasing order:
/// each point not visited yet starts a depth-first search, whose cluster is
/// listed.
pub open spec fn dfs_clusters(near: Seq<Vec<bool>>, v: Seq<bool>, i: int) -> Seq<Seq<usize>>
    decreases near.len() - i,
{
    if i < 0 || i >= near.len() || i >= v.len() {
        Seq::empty()
    } else if v[i] {
        dfs_clusters(near, v, i + 1)
    } else {
        let r = dfs_run(near, v, seq![i as usize], Seq::empty());
        seq![r.1] + dfs_clusters(near, r.0, i + 1)
    }
}

/// The point lists of clusters.
pub open spec fn cluster_seqs(cs: Seq<Vec<usize>>) -> Seq<Seq<usize>> {
    cs.map_values(|c: Vec<usize>| c@)
}

/// Grow the cluster of the unvisited point `start`: every point reachable
/// from it through near pairs, in the order a depth-first search with a
/// stack visits them; they are marked visited.
fn grow_cluster(near: &Vec<Vec<bool>>, visited: &mut Vec<bool>, start: usize) -> (c: Vec<usize>)
    requires
        nearness_table(near@),
        old(visited)@.len() == near@.len(),
        start < near@.len(),
        !old(visited)@[start as int],
        forall|x: int| 0 <= x < start ==> old(visited)@[x],
        closed_under(near@, old(visited)@),
    ensures
        is_cluster(near@, c@),
        c@[0] == start,
        forall|k: int| 0 <= k < c@.len() ==> !old(visited)@[#[trigger] c@[k] as int],
        final(visited)@.len() == near@.len(),
        forall|x: int|
            0 <= x < near@.len() ==> (#[trigger] final(visited)@[x] <==> (old(visited)@[x] || c@.contains(
                x as usize,
            ))),
        closed_under(near@, final(visited)@),
        (final(visited)@, c@) == dfs_run(near@, old(visited)@, seq![start], Seq::empty()),
{
    let n = near.len();
    let ghost v0 = visited@;
    let mut cluster: Vec<usize> = Vec::new();
    let mut stack: Vec<usize> = Vec::new();
    stack.push(start);
    proof {
        assert(stack@ =~= seq![start]);
        assert(cluster@ =~= Seq::<usize>::empty());
    }
    while stack.len() > 0
        invariant
            dfs_run(near@, visited@, stack@, cluster@) == dfs_run(near@, v0, seq![start], Seq::empty()),
            n == near@.len(),
            nearness_table(near@),
            v0.len() == n,
            start < n,
            !v0[start as int],
            forall|x: int| 0 <= x < start ==> v0[x],
            closed_under(near@, v0),
            visited@.len() == n,
            forall|x: int| 0 <= x < n ==> (#[trigger] visited@[x] <==> (v0[x] || cluster@.contains(x as usize))),
            cluster@.no_duplicates(),
            forall|k: int| 0 <= k < cluster@.len() ==> #[trigger] cluster@[k] < n && !v0[cluster@[k] as int],
            cluster@.len() == 0 ==> stack@ == seq![start],
            cluster@.len() > 0 ==> cluster@[0] == start,
            forall|k: int| 0 <= k < cluster@.len() ==> start <= #[trigger] cluster@[k],
            forall|t: int|
                0 <= t < stack@.len() ==> #[trigger] stack@[t] < n && (cluster@.len() == 0 || near_some(
                    near@,
                    cluster@,
                    stack@[t] as int,
                )),
            forall|k: int| 0 < k < cluster@.len() ==> #[trigger] near_earlier(near@, cluster@, k),
            forall|k: int, j: int|
                0 <= k < cluster@.len() && 0 <= j < n && #[trigger] adj(near@, cluster@[k] as int, j) ==> visited@[j]
                    || stack@.contains(j as usize),
        decreases count_unvisited(visited@), stack@.len(),
    {
        let ghost st0 = stack@;
        let idx = stack.pop().unwrap();
        proof {
            assert(stack@ == st0.drop_last());
            assert(idx == st0.last());
            lemma_pop_keeps_others(st0);
        }
        if visited[idx] {
            continue;
        }
        let ghost before_v = visited@;
        let ghost before_c = cluster@;
        visited.set(idx, true);
        proof {
            lemma_visit_one(before_v, idx as int);
        }
        cluster.push(idx);
        let ghost stack_after_pop = stack@;
        for j in 0..n
            invariant
                n == near@.len(),
                nearness_table(near@),
                idx < n,
                visited@.len() == n,
                cluster@.len() > 0,
                cluster@[cluster@.len() - 1] == idx,
                stack@.len() >= stack_after_pop.len(),
                forall|t: int| 0 <= t < stack_after_pop.len() ==> stack@[t] == stack_after_pop[t],
                forall|t: int|
                    stack_after_pop.len() <= t < stack@.len() ==> #[trigger] stack@[t] < n && adj(near@, idx as int, stack@[t] as int),
                forall|y: int| 0 <= y < j && #[trigger] adj(near@, idx as int, y) ==> visited@[y] || stack@.contains(y as usize),
                stack@ == dfs_push(near@, visited@, idx as int, stack_after_pop, j as int),
        {
            let ghost st_before = stack@;
            if !visited[j] && near[idx][j] {
                stack.push(j);
            }
            proof {
                assert forall|y: int| 0 <= y < j + 1 && #[trigger] adj(near@, idx as int, y) implies visited@[y]
                    || stack@.contains(y as usize) by {
                    if y < j {
                        if !visited@[y] {
                            assert(st_before.contains(y as usize));
                            let t = choose|t: int| 0 <= t < st_before.len() && st_before[t] == y as usize;
                            assert(stack@[t] == y as usize);
                        }
                    } else if !visited@[y] {
                        assert(stack@[stack@.len() - 1] == j);
                    }
                }
            }
        }
        proof {
            let c = cluster@;
            assert(c == before_c.push(idx));
            assert(!before_c.contains(idx)) by {
                if before_c.contains(idx) {
                    let k = choose|k: int| 0 <= k < before_c.len() && before_c[k] == idx;
                    assert(before_v[idx as int]);
                }
            }
            // The stack entries are near a point of the cluster.
            assert forall|t: int| 0 <= t < stack@.len() implies #[trigger] stack@[t] < n && (c.len() == 0
                || near_some(near@, c, stack@[t] as int)) by {
                if t < stack_after_pop.len() {
                    if before_c.len() > 0 {
                        assert(near_some(near@, before_c, stack_after_pop[t] as int));
                        let m = choose|m: int| 0 <= m < before_c.len() && #[trigger] adj(near@, before_c[m] as int, stack_after_pop[t] as int);
                        assert(c[m] == before_c[m]);
                    } else {
                        assert(stack_after_pop.len() == 0);
                    }
                } else {
                    assert(c[c.len() - 1] == idx);
                    assert(adj(near@, c[c.len() - 1] as int, stack@[t] as int));
                }
            }
            // The new point is near an earlier one.
            if before_c.len() > 0 {
                assert(near_some(near@, before_c, idx as int));
            } else {
                assert(idx == start);
            }
            assert forall|k: int| 0 < k < c.len() implies #[trigger] near_earlier(near@, c, k) by {
                if k < before_c.len() {
                    assert(near_earlier(near@, before_c, k));
                    let m = choose|m: int| 0 <= m < k && #[trigger] adj(near@, before_c[m] as int, before_c[k] as int);
                    assert(c[m] == before_c[m] && c[k] == before_c[k]);
                } else {
                    let m = choose|m: int| 0 <= m < before_c.len() && #[trigger] adj(near@, before_c[m] as int, idx as int);
                    assert(c[m] == before_c[m]);
                    assert(c[k] == idx);
                }
            }
            // Every neighbour of a point of the cluster is visited or waits on the stack.
            assert forall|k: int, j: int|
                0 <= k < c.len() && 0 <= j < n && #[trigger] adj(near@, c[k] as int, j) implies visited@[j]
                    || stack@.contains(j as usize) by {
                if k < before_c.len() {
                    assert(c[k] == before_c[k]);
                    if !visited@[j] {
                        assert(!before_v[j]);
                        assert(j != idx as int);
                        assert(st0.contains(j as usize));
                        assert(stack_after_pop.contains(j as usize));
                        let t = choose|t: int| 0 <= t < stack_after_pop.len() && stack_after_pop[t] == j as usize;
                        assert(stack@[t] == j as usize);
                    }
                } else {
                    assert(c[k] == idx);
                }
            }
            assert forall|x: int| 0 <= x < n implies (#[trigger] visited@[x] <==> (v0[x] || c.contains(x as usize))) by {
                if x == idx as int {
                    assert(c[c.len() - 1] == idx);
                } else {
                    if c.contains(x as usize) {
                        let k = choose|k: int| 0 <= k < c.len() && c[k] == x as usize;
                        assert(before_c[k] == x as usize);
                    }
                    if before_c.contains(x as usize) {
                        let k = choose|k: int| 0 <= k < before_c.len() && before_c[k] == x as usize;
                        assert(c[k] == x as usize);
                    }
                }
            }
            assert forall|i: int, k: int| 0 <= i < c.len() && 0 <= k < c.len() && i != k implies c[i] != c[k] by {
                if i < before_c.len() && k < before_c.len() {
                } else if i < before_c.len() {
                    assert(before_c.contains(c[i]));
                } else {
                    assert(before_c.contains(c[k]));
                }
            }
        }
    }
    proof {
        let c = cluster@;
        // Every neighbour of the cluster is in it: one visited before would
        // make the cluster's point visited before too.
        assert forall|k: int, j: int| 0 <= k < c.len() && 0 <= j < n && #[trigger] adj(near@, c[k] as int, j) implies c.contains(
            j as usize,
        ) by {
            assert(visited@[j]);
            if v0[j] {
                assert(adj(near@, j, c[k] as int));
                assert(v0[c[k] as int]);
            }
        }
        assert forall|x: int, y: int|
            0 <= x < n && 0 <= y < n && #[trigger] visited@[x] && #[trigger] adj(near@, x, y) implies visited@[y] by {
            if v0[x] {
                assert(v0[y]);
            } else {
                let k = choose|k: int| 0 <= k < c.len() && c[k] == x as usize;
                assert(adj(near@, c[k] as int, y));
            }
        }
    }
    cluster
}

/// Popping the last entry keeps every other value on the stack.
proof fn lemma_pop_keeps_others(s: Seq<usize>)
    requires
        s.len() > 0,
    ensures
        forall|x: usize| #[trigger] s.contains(x) && x != s.last() ==> s.drop_last().contains(x),
{
    assert forall|x: usize| #[trigger] s.contains(x) && x != s.last() implies s.drop_last().contains(x) by {
        let t = choose|t: int| 0 <= t < s.len() && s[t] == x;
        assert(t != s.len() - 1);
        assert(s.drop_last()[t] == x);
    }
}

/// Whether point `x` lies in one of the clusters.
pub open spec fn covered(cs: Seq<Vec<usize>>, x: int) -> bool {
    exists|c: int| 0 <= c < cs.len() && (#[trigger] cs[c])@.contains(x as usize)
}

/// The clusters partition the points into clusters (see `is_cluster`), in
/// the order of their smallest points.
pub open spec fn clustering(near: Seq<Vec<bool>>, cs: Seq<Vec<usize>>) -> bool {
    &&& forall|c: int| 0 <= c < cs.len() ==> is_cluster(near, (#[trigger] cs[c])@)
    &&& forall|c1: int, c2: int| 0 <= c1 < c2 < cs.len() ==> (#[trigger] cs[c1])@[0] < (#[trigger] cs[c2])@[0]
    &&& forall|x: int| 0 <= x < near.len() ==> #[trigger] covered(cs, x)
    &&& forall|c1: int, c2: int, x: usize|
        #![trigger cs[c1]@.contains(x), cs[c2]@.contains(x)]
        0 <= c1 < cs.len() && 0 <= c2 < cs.len() && c1 != c2 && cs[c1]@.contains(x) ==> !cs[c2]@.contains(x)
}

/// Single-linkage clustering of points, given which pairs are near: the
/// clusters are the groups of points linked by chains of near pairs, in
/// the order of their smallest points; each lists its smallest point first,
/// and every later point near an earlier one, exactly in the order in which
/// a depth-first search with a stack visits them (`dfs_clusters`).
pub fn cluster_entities(near: &Vec<Vec<bool>>) -> (clusters: Vec<Vec<usize>>)
    requires
        nearness_table(near@),
    ensures
        clustering(near@, clusters@),
        cluster_seqs(clusters@) == dfs_clusters(near@, Seq::new(near@.len(), |x: int| false), 0),
{
    let n = near.len();
    let mut visited: Vec<bool> = Vec::new();
    let mut k: usize = 0;
    while k < n
        invariant
            k <= n,
            visited@.len() == k,
            forall|x: int| 0 <= x < k ==> !visited@[x],
        decreases n - k,
    {
        visited.push(false);
        k = k + 1;
    }
    let ghost none_visited = Seq::new(near@.len(), |x: int| false);
    let mut clusters: Vec<Vec<usize>> = Vec::new();
    proof {
        assert(visited@ =~= none_visited);
        assert(cluster_seqs(clusters@) + dfs_clusters(near@, visited@, 0) =~= dfs_clusters(
            near@,
            none_visited,
            0,
        ));
    }
    let mut i: usize = 0;
    while i < n
        invariant
            cluster_seqs(clusters@) + dfs_clusters(near@, visited@, i as int) == dfs_clusters(
                near@,
                none_visited,
                0,
            ),
            n == near@.len(),
            nearness_table(near@),
            i <= n,
            visited@.len() == n,
            closed_under(near@, visited@),
            forall|x: int| 0 <= x < i ==> visited@[x],
            forall|x: int| 0 <= x < n ==> (#[trigger] visited@[x] <==> covered(clusters@, x)),
            forall|c: int| 0 <= c < clusters@.len() ==> is_cluster(near@, (#[trigger] clusters@[c])@),
            forall|c: int| 0 <= c < clusters@.len() ==> (#[trigger] clusters@[c])@[0] < i,
            forall|c1: int, c2: int|
                0 <= c1 < c2 < clusters@.len() ==> (#[trigger] clusters@[c1])@[0] < (#[trigger] clusters@[c2])@[0],
            forall|c1: int, c2: int, x: usize|
                #![trigger clusters@[c1]@.contains(x), clusters@[c2]@.contains(x)]
                0 <= c1 < clusters@.len() && 0 <= c2 < clusters@.len() && c1 != c2 && clusters@[c1]@.contains(x)
                    ==> !clusters@[c2]@.contains(x),
        decreases n - i,
    {
        if !visited[i] {
            let ghost v_before = visited@;
            let ghost cs_before = clusters@;
            let c = grow_cluster(near, &mut visited, i);
            let ghost cv = c@;
            clusters.push(c);
            proof {
                assert(cluster_seqs(clusters@) =~= cluster_seqs(cs_before).push(cv));
                assert(dfs_clusters(near@, v_before, i as int) == seq![cv] + dfs_clusters(
                    near@,
                    visited@,
                    i + 1,
                ));
                assert(cluster_seqs(clusters@) + dfs_clusters(near@, visited@, i + 1) =~= cluster_seqs(
                    cs_before,
                ) + dfs_clusters(near@, v_before, i as int));
            }
            proof {
                let cs = clusters@;
                assert(cs[cs.len() - 1]@ == cv);
                assert forall|j: int| 0 <= j < cs_before.len() implies cs[j] == cs_before[j] by {}
                assert forall|x: int| 0 <= x < n implies (#[trigger] visited@[x] <==> covered(cs, x)) by {
                    if visited@[x] {
                        if v_before[x] {
                            assert(covered(cs_before, x));
                            let c0 = choose|c0: int| 0 <= c0 < cs_before.len() && (#[trigger] cs_before[c0])@.contains(x as usize);
                            assert(cs[c0] == cs_before[c0]);
                        } else {
                            assert(cv.contains(x as usize));
                            assert(cs[cs.len() - 1]@.contains(x as usize));
                        }
                    }
                    if covered(cs, x) {
                        let c0 = choose|c0: int| 0 <= c0 < cs.len() && (#[trigger] cs[c0])@.contains(x as usize);
                        if c0 < cs_before.len() {
                            assert(cs_before[c0] == cs[c0]);
                            assert(covered(cs_before, x));
                        }
                    }
                }
                assert forall|c1: int, c2: int, x: usize|
                    #![trigger cs[c1]@.contains(x), cs[c2]@.contains(x)]
                    0 <= c1 < cs.len() && 0 <= c2 < cs.len() && c1 != c2 && cs[c1]@.contains(x) implies !cs[c2]@.contains(x) by {
                    if c1 == cs.len() - 1 || c2 == cs.len() - 1 {
                        let old_c = if c1 == cs.len() - 1 { c2 } else { c1 };
                        if cs[c1]@.contains(x) && cs[c2]@.contains(x) {
                            assert(cs[old_c] == cs_before[old_c]);
                            assert(cs_before[old_c]@.contains(x));
                            let kk = choose|kk: int| 0 <= kk < cs_before[old_c]@.len() && cs_before[old_c]@[kk] == x;
                            assert(x < n);
                            assert(covered(cs_before, x as int));
                            assert(v_before[x as int]);
                            let k2 = choose|k2: int| 0 <= k2 < cv.len() && cv[k2] == x;
                            assert(!v_before[cv[k2] as int]);
                        }
                    } else {
                        assert(cs[c1] == cs_before[c1] && cs[c2] == cs_before[c2]);
                    }
                }
            }
        }
        i = i + 1;
    }
    proof {
        assert forall|x: int| 0 <= x < n implies #[trigger] covered(clusters@, x) by {
            assert(visited@[x]);
        }
    }
    clusters
}

/// The clusters of at least `MIN_SETTLEMENT_POPULATION` points, in order.
pub open spec fn large_clusters(cs: Seq<Vec<usize>>) -> Seq<Vec<usize>>
    decreases cs.len(),
{
    if cs.len() == 0 {
        Seq::empty()
    } else {
        let rest = large_clusters(cs.drop_last());
        if cs.last()@.len() >= MIN_SETTLEMENT_POPULATION {
            rest.push(cs.last())
        } else {
            rest
        }
    }
}

/// The clusters large enough to found a settlement: those of
/// `cluster_entities` with at least `MIN_SETTLEMENT_POPULATION` points.
pub fn settlement_clusters(near: &Vec<Vec<bool>>) -> (clusters: Vec<Vec<usize>>)
    requires
        nearness_table(near@),
    ensures
        exists|all: Seq<Vec<usize>>|
            #[trigger] clustering(near@, all) && cluster_seqs(all) == dfs_clusters(
                near@,
                Seq::new(near@.len(), |x: int| false),
                0,
            ) && clusters@ == large_clusters(all),
{
    let all = cluster_entities(near);
    let ghost all_view = all@;
    let mut out: Vec<Vec<usize>> = Vec::new();
    let mut rest = all;
    let mut taken: usize = 0;
    let n = rest.len();
    while taken < n
        invariant
            n == all_view.len(),
            taken <= n,
            rest@ == all_view.skip(taken as int),
            out@ == large_clusters(all_view.take(taken as int)),
        decreases n - taken,
    {
        let c = rest.remove(0);
        proof {
            assert(c == all_view[taken as int]);
            assert(rest@ =~= all_view.skip(taken + 1));
            assert(all_view.take(taken + 1).drop_last() =~= all_view.take(taken as int));
            assert(all_view.take(taken + 1).last() == c);
        }
        if c.len() >= MIN_SETTLEMENT_POPULATION {
            out.push(c);
        }
        taken = taken + 1;
    }
    proof {
        assert(all_view.take(n as int) =~= all_view);
    }
    out
}

/// Law: points near each other are in the same cluster, and every point is
/// in exactly one cluster.
pub proof fn law_clusters_are_linked_groups(
    near: Seq<Vec<bool>>,
    cs: Seq<Vec<usize>>,
    c: int,
    x: usize,
    y: usize,
)
    requires
        nearness_table(near),
        clustering(near, cs),
        0 <= c < cs.len(),
        cs[c]@.contains(x),
        y < near.len(),
        adj(near, x as int, y as int),
    ensures
        cs[c]@.contains(y),
        forall|d: int| 0 <= d < cs.len() && d != c ==> !(#[trigger] cs[d])@.contains(y),
{
    let k = choose|k: int| 0 <= k < cs[c]@.len() && cs[c]@[k] == x;
    assert(is_cluster(near, cs[c]@));
    assert(adj(near, cs[c]@[k] as int, y as int));
    assert forall|d: int| 0 <= d < cs.len() && d != c implies !(#[trigger] cs[d])@.contains(y) by {
        if cs[d]@.contains(y) {
            assert(cs[c]@.contains(y) && cs[d]@.contains(y));
        }
    }
}

/// One round of matching a tick's clusters to settlements: the settlements
/// matched or founded so far, and the next fresh settlement id.
#[derive(Debug)]
pub struct SettlementRound {
    next_id: u64,
    matched: Vec<u64>,
}

impl SettlementRound {
    /// The next fresh settlement id.
    pub closed spec fn next(&self) -> u64 {
        self.next_id
    }

    /// The settlements matched or founded so far this round.
    pub closed spec fn matched_ids(&self) -> Set<u64> {
        Set::new(|x: u64| self.matched@.contains(x))
    }

    /// A round that has matched nothing yet, with `next_id` as the next
    /// fresh id.
    pub fn new(next_id: u64) -> (r: Self)
        ensures
            r.next() == next_id,
            r.matched_ids() == Set::<u64>::empty(),
    {
        let r = SettlementRound { next_id, matched: Vec::new() };
        assert(r.matched_ids() =~= Set::<u64>::empty());
        r
    }

    /// Place a cluster: with the settlement it matched, that settlement;
    /// with none, a new settlement under the next fresh id, which then
    /// moves on by one. Either way the settlement counts as matched.
    pub fn place(&mut self, existing: Option<u64>) -> (id: u64)
        requires
            existing is None ==> old(self).next() < u64::MAX,
        ensures
            existing matches Some(sid) ==> id == sid && final(self).next() == old(self).next(),
            existing is None ==> id == old(self).next() && final(self).next() == old(self).next() + 1,
            final(self).matched_ids() == old(self).matched_ids().insert(id),
    {
        let id = match existing {
            Some(sid) => sid,
            None => {
                let fresh = self.next_id;
                self.next_id = self.next_id + 1;
                fresh
            },
        };
        let ghost before = self.matched@;
        self.matched.push(id);
        proof {
            let after = self.matched@;
            assert(after =~= before.push(id));
            assert(old(self).matched@ == before);
            assert forall|x: u64| #[trigger] self.matched_ids().contains(x) <==> old(self).matched_ids().insert(
                id,
            ).contains(x) by {
                if after.contains(x) {
                    let k = choose|k: int| 0 <= k < after.len() && after[k] == x;
                    if k < before.len() {
                        assert(before[k] == x);
                        assert(before.contains(x));
                    }
                }
                if before.contains(x) {
                    let k = choose|k: int| 0 <= k < before.len() && before[k] == x;
                    assert(after[k] == x);
                }
                if x == id {
                    assert(after[before.len() as int] == x);
                }
            }
            assert(self.matched_ids() =~= old(self).matched_ids().insert(id));
        }
        id
    }

    /// Whether a settlement was matched or founded this round (and so is
    /// kept).
    pub fn keeps(&self, id: u64) -> (r: bool)
        ensures
            r == self.matched_ids().contains(id),
    {
        let mut i: usize = 0;
        while i < self.matched.len()
            invariant
                i <= self.matched@.len(),
                forall|k: int| 0 <= k < i ==> self.matched@[k] != id,
            decreases self.matched@.len() - i,
        {
            if self.matched[i] == id {
                return true;
            }
            i = i + 1;
        }
        false
    }

    /// The next fresh settlement id.
    pub fn next_id(&self) -> (n: u64)
        ensures
            n == self.next(),
    {
        self.next_id
    }
}

/// How much of each resource type a settlement has produced, the types in
/// the order they were first produced.
#[derive(Debug)]
pub struct ProductionStats {
    entries: Vec<(String, u64)>,
}

impl ProductionStats {
    /// The resource types produced, in order.
    pub closed spec fn types(&self) -> Seq<Seq<char>> {
        Seq::new(self.entries@.len(), |i: int| self.entries@[i].0@)
    }

    /// The amount produced of each type, in the same order.
    pub closed spec fn amounts(&self) -> Seq<u64> {
        Seq::new(self.entries@.len(), |i: int| self.entries@[i].1)
    }

    /// No type is listed twice.
    pub open spec fn wf(&self) -> bool {
        &&& self.types().no_duplicates()
        &&& self.types().len() == self.amounts().len()
    }

    /// The amount produced of a type (0 if never produced).
    pub open spec fn amount_of(&self, t: Seq<char>) -> u64 {
        if self.types().contains(t) {
            self.amounts()[self.types().index_of(t)]
        } else {
            0
        }
    }

    /// Nothing produced yet.
    pub fn new() -> (p: Self)
        ensures
            p.wf(),
            p.types() == Seq::<Seq<char>>::empty(),
    {
        ProductionStats { entries: Vec::new() }
    }

    /// The position of a type, if produced.
    fn position(&self, t: &String) -> (r: Option<usize>)
        ensures
            match r {
                Some(i) => i < self.entries@.len() && self.types()[i as int] == t@,
                None => !self.types().contains(t@),
            },
    {
        let mut i: usize = 0;
        while i < self.entries.len()
            invariant
                i <= self.entries@.len(),
                forall|j: int| 0 <= j < i ==> self.types()[j] != t@,
            decreases self.entries@.len() - i,
        {
            if self.entries[i].0 == *t {
                return Some(i);
            }
            i = i + 1;
        }
        proof {
            if self.types().contains(t@) {
                let j = choose|j: int| 0 <= j < self.types().len() && self.types()[j] == t@;
            }
        }
        None
    }

    /// Record `count` more units produced of a resource type.
    pub fn record_production(&mut self, resource_type: &str, count: u64)
        requires
            old(self).wf(),
            old(self).amount_of(resource_type@) + count <= u64::MAX,
        ensures
            final(self).wf(),
            final(self).amount_of(resource_type@) == old(self).amount_of(resource_type@) + count,
            forall|t: Seq<char>| t != resource_type@ ==> #[trigger] final(self).amount_of(t) == old(self).amount_of(t),
            old(self).types().contains(resource_type@) ==> final(self).types() == old(self).types(),
            !old(self).types().contains(resource_type@) ==> final(self).types() == old(self).types().push(
                resource_type@,
            ),
    {
        let key = resource_type.to_owned();
        let ghost old_types = self.types();
        let ghost old_amounts = self.amounts();
        match self.position(&key) {
            Some(i) => {
                let name = self.entries[i].0.clone();
                let c = self.entries[i].1;
                proof {
                    assert(old_types.index_of(key@) == i as int) by {
                        if old_types.index_of(key@) != i as int {
                            assert(old_types[old_types.index_of(key@)] == old_types[i as int]);
                        }
                    }
                }
                self.entries.set(i, (name, c + count));
                proof {
                    assert(self.types() =~= old_types);
                    assert(self.amounts() =~= old_amounts.update(i as int, (c + count) as u64));
                }
            },
            None => {
                self.entries.push((key, count));
                proof {
                    assert(self.types() =~= old_types.push(key@));
                    assert(self.amounts() =~= old_amounts.push(count));
                    assert forall|a: int, b: int| 0 <= a < b < self.types().len() implies self.types()[a] != self.types()[b] by {
                        if b == self.types().len() - 1 {
                            assert(old_types.contains(old_types[a]));
                        }
                    }
                    let ts = self.types();
                    assert(ts[old_types.len() as int] == key@);
                    assert(ts.contains(key@));
                    let k = ts.index_of(key@);
                    assert(0 <= k < ts.len() && ts[k] == key@);
                    if k < old_types.len() {
                        assert(old_types[k] == ts[k]);
                        assert(old_types.contains(key@));
                    }
                    assert(k == old_types.len() as int);
                }
            },
        }
        proof {
            assert forall|t: Seq<char>| t != resource_type@ implies #[trigger] self.amount_of(t) == old(self).amount_of(t) by {
                if old_types.contains(t) {
                    let k = old_types.index_of(t);
                    assert(self.types()[k] == t);
                    let k2 = self.types().index_of(t);
                    if k2 != k {
                        assert(self.types()[k2] == self.types()[k]);
                    }
                } else if self.types().contains(t) {
                    let k = choose|k: int| 0 <= k < self.types().len() && self.types()[k] == t;
                    if k < old_types.len() {
                        assert(old_types[k] == t);
                    }
                }
            }
        }
    }

    /// The amount produced of a resource type, if it was ever produced.
    pub fn get(&self, resource_type: &str) -> (r: Option<u64>)
        requires
            self.wf(),
        ensures
            self.types().contains(resource_type@) ==> r == Some(self.amount_of(resource_type@)),
            !self.types().contains(resource_type@) ==> r is None,
    {
        let key = resource_type.to_owned();
        match self.position(&key) {
            Some(i) => {
                proof {
                    let k = self.types().index_of(key@);
                    if k != i as int {
                        assert(self.types()[k] == self.types()[i as int]);
                    }
                }
                Some(self.entries[i].1)
            },
            None => None,
        }
    }

    /// Whether nothing was produced.
    pub fn is_empty(&self) -> (r: bool)
        ensures
            r == (self.types().len() == 0),
    {
        self.entries.len() == 0
    }

    /// The resource type produced most, with its amount (the last listed
    /// among equals); `None` when nothing was produced.
    pub fn dominant_resource(&self) -> (r: Option<(String, u64)>)
        requires
            self.wf(),
        ensures
            r is None <==> self.types().len() == 0,
            r matches Some(d) ==> {
                &&& self.types().contains(d.0@)
                &&& d.1 == self.amount_of(d.0@)
                &&& forall|t: Seq<char>| #[trigger] self.types().contains(t) ==> self.amount_of(t) <= d.1
            },
    {
        if self.entries.len() == 0 {
            return None;
        }
        let mut best: usize = 0;
        let mut i: usize = 1;
        while i < self.entries.len()
            invariant
                0 < self.entries@.len(),
                best < i <= self.entries@.len(),
                forall|j: int| 0 <= j < i ==> self.amounts()[j] <= self.amounts()[best as int],
            decreases self.entries@.len() - i,
        {
            if self.entries[i].1 >= self.entries[best].1 {
                best = i;
            }
            i = i + 1;
        }
        let name = self.entries[best].0.clone();
        let c = self.entries[best].1;
        proof {
            let ts = self.types();
            assert(ts[best as int] == name@);
            let k = ts.index_of(name@);
            if k != best as int {
                assert(ts[k] == ts[best as int]);
            }
            assert forall|t: Seq<char>| #[trigger] ts.contains(t) implies self.amount_of(t) <= c by {
            }
        }
        Some((name, c))
    }
}

} // verus!
