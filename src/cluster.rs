use vstd::prelude::*;

verus! {

/// Whether `j` lies in the eps-neighborhood of `i`, with `i` as the reference.
pub open spec fn edge(adj: Seq<Vec<bool>>, i: int, j: int) -> bool {
    adj[i]@[j]
}

/// The neighbor matrix has one row of `n` entries for each of the `n` dimensions.
pub open spec fn is_square(adj: Seq<Vec<bool>>) -> bool {
    forall|i: int| 0 <= i < adj.len() ==> (#[trigger] adj[i]@).len() == adj.len()
}

/// `p` is a chain of neighbor steps over valid indices.
pub open spec fn is_path(adj: Seq<Vec<bool>>, p: Seq<int>) -> bool {
    &&& p.len() >= 1
    &&& forall|k: int| 0 <= k < p.len() ==> 0 <= #[trigger] p[k] < adj.len()
    &&& forall|k: int| 0 <= k < p.len() - 1 ==> #[trigger] edge(adj, p[k], p[k + 1])
}

/// `t` is reached from `s` by a chain of eps-neighbor steps.
pub open spec fn reaches(adj: Seq<Vec<bool>>, s: int, t: int) -> bool {
    exists|p: Seq<int>| #[trigger] is_path(adj, p) && p[0] == s && p.last() == t
}

/// Dimension `i` is a member of cluster `c`.
pub open spec fn member(cl: Seq<Seq<usize>>, c: int, i: int) -> bool {
    exists|k: int| 0 <= k < cl[c].len() && cl[c][k] as int == i
}

/// The index of the cluster that holds dimension `i`.
pub open spec fn cluster_of(cl: Seq<Seq<usize>>, i: int) -> int {
    choose|c: int| 0 <= c < cl.len() && member(cl, c, i)
}

pub open spec fn views(v: Seq<Vec<usize>>) -> Seq<Seq<usize>> {
    v.map_values(|x: Vec<usize>| x@)
}

/// Every one of the `n` dimensions stands in exactly one cluster, once.
pub open spec fn is_partition(cl: Seq<Seq<usize>>, n: int) -> bool {
    &&& forall|c: int, k: int| 0 <= c < cl.len() && 0 <= k < cl[c].len() ==> #[trigger] cl[c][k] < n
    &&& forall|c: int| 0 <= c < cl.len() ==> (#[trigger] cl[c]).len() > 0 && cl[c].no_duplicates()
    &&& forall|i: int| 0 <= i < n ==> 0 <= #[trigger] cluster_of(cl, i) < cl.len() && member(cl, cluster_of(cl, i), i)
    &&& forall|c: int, i: int| 0 <= c < cl.len() && #[trigger] member(cl, c, i) ==> cluster_of(cl, i) == c
}

/// The outcome of eps-reachability clustering over the neighbor matrix `adj`:
/// a partition in which each cluster starts with its seed, the lowest index
/// not taken by an earlier cluster; every other member is a neighbor of an
/// earlier member of its cluster, so it is reached from the seed by neighbor
/// steps; and no neighbor of a member is left to a later cluster.
pub open spec fn is_clustering(adj: Seq<Vec<bool>>, cl: Seq<Seq<usize>>) -> bool {
    &&& is_partition(cl, adj.len() as int)
    &&& parented(adj, cl)
    &&& forall|c: int, k: int| 0 <= c < cl.len() && 0 <= k < cl[c].len()
        ==> reaches(adj, cl[c][0] as int, #[trigger] cl[c][k] as int)
    &&& forall|c: int, k: int, j: int| 0 <= c < cl.len() && 0 <= k < cl[c].len() && 0 <= j < adj.len()
        && #[trigger] edge(adj, cl[c][k] as int, j) ==> cluster_of(cl, j) <= c
    &&& forall|c: int, x: int| #![trigger cl[c][0], cluster_of(cl, x)]
        0 <= c < cl.len() && 0 <= x < cl[c][0] ==> cluster_of(cl, x) < c
}

pub open spec fn count_true(s: Seq<bool>) -> nat
    decreases s.len(),
{
    if s.len() == 0 {
        0
    } else {
        count_true(s.drop_last()) + if s.last() { 1nat } else { 0nat }
    }
}

proof fn lemma_count_true_bound(s: Seq<bool>)
    ensures
        count_true(s) <= s.len(),
    decreases s.len(),
{
    if s.len() > 0 {
        lemma_count_true_bound(s.drop_last());
    }
}

proof fn lemma_count_true_set(s: Seq<bool>, i: int)
    requires
        0 <= i < s.len(),
        !s[i],
    ensures
        count_true(s.update(i, true)) == count_true(s) + 1,
    decreases s.len(),
{
    let t = s.update(i, true);
    if i < s.len() - 1 {
        assert(t.drop_last() =~= s.drop_last().update(i, true));
        lemma_count_true_set(s.drop_last(), i);
    } else {
        assert(t.drop_last() =~= s.drop_last());
    }
}

proof fn lemma_reaches_self(adj: Seq<Vec<bool>>, s: int)
    requires
        0 <= s < adj.len(),
    ensures
        reaches(adj, s, s),
{
    let p = seq![s];
    assert(is_path(adj, p));
}

proof fn lemma_reaches_step(adj: Seq<Vec<bool>>, s: int, m: int, j: int)
    requires
        reaches(adj, s, m),
        0 <= j < adj.len(),
        edge(adj, m, j),
    ensures
        reaches(adj, s, j),
{
    let p = choose|p: Seq<int>| #[trigger] is_path(adj, p) && p[0] == s && p.last() == m;
    let q = p.push(j);
    assert forall|k: int| 0 <= k < q.len() - 1 implies #[trigger] edge(adj, q[k], q[k + 1]) by {
        if k < p.len() - 1 {
            assert(q[k] == p[k] && q[k + 1] == p[k + 1]);
        } else {
            assert(q[k] == m && q[k + 1] == j);
        }
    }
    assert(is_path(adj, q));
}

spec fn labelled(cl: Seq<Seq<usize>>, n: int, assigned: Seq<bool>, owner: Seq<usize>) -> bool {
    &&& forall|c: int, k: int| 0 <= c < cl.len() && 0 <= k < cl[c].len() ==>
        (#[trigger] cl[c][k]) < n && assigned[cl[c][k] as int] && owner[cl[c][k] as int] == c
    &&& forall|i: int| 0 <= i < n && #[trigger] assigned[i] ==>
        owner[i] < cl.len() && member(cl, owner[i] as int, i)
    &&& forall|c: int| 0 <= c < cl.len() ==> (#[trigger] cl[c]).len() > 0 && cl[c].no_duplicates()
    &&& forall|c: int, x: int| #![trigger cl[c][0], assigned[x]]
        0 <= c < cl.len() && 0 <= x < cl[c][0] ==> assigned[x] && owner[x] < c
}

/// Member `k` of `members` is a neighbor of an earlier member.
pub open spec fn has_parent(adj: Seq<Vec<bool>>, members: Seq<usize>, k: int) -> bool {
    exists|p: int| 0 <= p < k && #[trigger] edge(adj, members[p] as int, members[k] as int)
}

/// Each member after the first is a neighbor of an earlier member.
pub open spec fn parented(adj: Seq<Vec<bool>>, cl: Seq<Seq<usize>>) -> bool {
    forall|c: int, k: int| 0 <= c < cl.len() && 0 < k < cl[c].len() ==> #[trigger] has_parent(adj, cl[c], k)
}

spec fn rooted(adj: Seq<Vec<bool>>, cl: Seq<Seq<usize>>) -> bool {
    forall|c: int, k: int| 0 <= c < cl.len() && 0 <= k < cl[c].len()
        ==> reaches(adj, cl[c][0] as int, #[trigger] cl[c][k] as int)
}

proof fn lemma_extend_labelled(
    done: Seq<Seq<usize>>,
    cur: Seq<usize>,
    n: int,
    assigned: Seq<bool>,
    owner: Seq<usize>,
    j: usize,
    c: usize,
)
    requires
        c == done.len(),
        labelled(done.push(cur), n, assigned, owner),
        assigned.len() == n,
        owner.len() == n,
        j < n,
        !assigned[j as int],
        cur.len() > 0,
    ensures
        labelled(done.push(cur.push(j)), n, assigned.update(j as int, true), owner.update(j as int, c)),
{
    let old_all = done.push(cur);
    let all = done.push(cur.push(j));
    let a2 = assigned.update(j as int, true);
    let o2 = owner.update(j as int, c);
    assert forall|cc: int| 0 <= cc < all.len() implies #[trigger] all[cc] == if cc == c {
        cur.push(j)
    } else {
        old_all[cc]
    } by {}
    assert forall|cc: int, k: int| 0 <= cc < all.len() && 0 <= k < all[cc].len() implies
        (#[trigger] all[cc][k]) < n && a2[all[cc][k] as int] && o2[all[cc][k] as int] == cc by {
        if cc == c && k == cur.len() {
        } else {
            assert(all[cc][k] == old_all[cc][k]);
        }
    }
    assert forall|ii: int| 0 <= ii < n && #[trigger] a2[ii]
        implies o2[ii] < all.len() && member(all, o2[ii] as int, ii) by {
        if ii == j {
            assert(all[c as int][cur.len() as int] == j);
        } else {
            assert(assigned[ii]);
            let oc = owner[ii] as int;
            let k = choose|k: int| 0 <= k < old_all[oc].len() && old_all[oc][k] as int == ii;
            assert(all[oc][k] == old_all[oc][k]);
        }
    }
    assert forall|cc: int| 0 <= cc < all.len() implies (#[trigger] all[cc]).len() > 0
        && all[cc].no_duplicates() by {
        if cc == c {
            assert forall|k: int| 0 <= k < cur.len() implies cur[k] != j by {
                assert(old_all[c as int][k] == cur[k]);
            }
        }
    }
    assert forall|cc: int, x: int| #![trigger all[cc][0], a2[x]]
        0 <= cc < all.len() && 0 <= x < all[cc][0] implies a2[x] && o2[x] < cc by {
        assert(all[cc][0] == old_all[cc][0]);
        assert(assigned[x]);
    }
}

proof fn lemma_extend_paths(adj: Seq<Vec<bool>>, done: Seq<Seq<usize>>, cur: Seq<usize>, head: int, j: usize)
    requires
        rooted(adj, done.push(cur)),
        parented(adj, done.push(cur)),
        0 <= head < cur.len(),
        edge(adj, cur[head] as int, j as int),
        reaches(adj, cur[0] as int, j as int),
    ensures
        rooted(adj, done.push(cur.push(j))),
        parented(adj, done.push(cur.push(j))),
{
    let c = done.len() as int;
    let old_all = done.push(cur);
    let all = done.push(cur.push(j));
    assert forall|cc: int| 0 <= cc < all.len() implies #[trigger] all[cc] == if cc == c {
        cur.push(j)
    } else {
        old_all[cc]
    } by {}
    assert forall|cc: int, k: int| 0 <= cc < all.len() && 0 <= k < all[cc].len()
        implies reaches(adj, all[cc][0] as int, #[trigger] all[cc][k] as int) by {
        if cc == c && k == cur.len() {
        } else {
            assert(all[cc][k] == old_all[cc][k]);
            assert(all[cc][0] == old_all[cc][0]);
        }
    }
    assert forall|cc: int, k: int| 0 <= cc < all.len() && 0 < k < all[cc].len() implies
        #[trigger] has_parent(adj, all[cc], k) by {
        if cc == c && k == cur.len() {
            assert(all[cc][head] == cur[head]);
            assert(edge(adj, all[cc][head] as int, all[cc][k] as int));
        } else {
            assert(has_parent(adj, old_all[cc], k));
            assert(all[cc][k] == old_all[cc][k]);
            let p = choose|p: int| 0 <= p < k && #[trigger] edge(adj, old_all[cc][p] as int, old_all[cc][k] as int);
            assert(all[cc][p] == old_all[cc][p]);
            assert(edge(adj, all[cc][p] as int, all[cc][k] as int));
        }
    }
}

spec fn closed(adj: Seq<Vec<bool>>, cl: Seq<Seq<usize>>, upto: int, assigned: Seq<bool>, owner: Seq<usize>) -> bool {
    forall|c: int, k: int, j: int| 0 <= c < upto && 0 <= k < cl[c].len() && 0 <= j < adj.len()
        && #[trigger] edge(adj, cl[c][k] as int, j) ==> assigned[j] && owner[j] <= c
}

/// Groups dimensions into clusters by eps-reachability over the neighbor
/// matrix `adj` (`adj[i][j]`: `j` is within eps of `i`, with `i` as the
/// reference). Dimensions are taken as seeds in index order; a seed's
/// cluster absorbs, breadth first, every not yet clustered neighbor of its
/// members. Each cluster lists its seed first.
pub fn cluster_indices(adj: &Vec<Vec<bool>>) -> (r: Vec<Vec<usize>>)
    requires
        is_square(adj@),
    ensures
        is_clustering(adj@, views(r@)),
{
    let n = adj.len();
    let mut assigned: Vec<bool> = Vec::new();
    let mut owner: Vec<usize> = Vec::new();
    let mut t: usize = 0;
    while t < n
        invariant
            t <= n,
            assigned@.len() == t,
            owner@.len() == t,
            forall|x: int| 0 <= x < t ==> !assigned@[x],
            count_true(assigned@) == 0,
        decreases n - t,
    {
        let ghost before = assigned@;
        assigned.push(false);
        owner.push(0);
        proof {
            assert(assigned@.drop_last() =~= before);
        }
        t += 1;
    }
    let mut clusters: Vec<Vec<usize>> = Vec::new();
    let mut i: usize = 0;
    while i < n
        invariant
            n == adj@.len(),
            is_square(adj@),
            i <= n,
            assigned@.len() == n,
            owner@.len() == n,
            labelled(views(clusters@), n as int, assigned@, owner@),
            rooted(adj@, views(clusters@)),
            parented(adj@, views(clusters@)),
            closed(adj@, views(clusters@), clusters@.len() as int, assigned@, owner@),
            forall|x: int| 0 <= x < i ==> assigned@[x],
            clusters@.len() <= count_true(assigned@),
        decreases n - i,
    {
        if !assigned[i] {
            let c = clusters.len();
            let ghost done = views(clusters@);
            let ghost base = count_true(assigned@);
            let ghost old_assigned = assigned@;
            let ghost old_owner = owner@;
            proof {
                lemma_count_true_set(assigned@, i as int);
                lemma_reaches_self(adj@, i as int);
            }
            assigned.set(i, true);
            owner.set(i, c);
            let mut cur: Vec<usize> = Vec::new();
            cur.push(i);
            proof {
                let all = done.push(cur@);
                assert forall|cc: int, x: int| #![trigger all[cc][0], assigned@[x]]
                    0 <= cc < all.len() && 0 <= x < all[cc][0]
                    implies assigned@[x] && owner@[x] < cc by {
                    assert(old_assigned[x]);
                    assert(owner@[x] == old_owner[x]);
                    if cc != c {
                        assert(all[cc] == done[cc]);
                    }
                }
                assert forall|ii: int| 0 <= ii < n && #[trigger] assigned@[ii]
                    implies owner@[ii] < all.len() && member(all, owner@[ii] as int, ii) by {
                    if ii == i {
                        assert(all[c as int][0] == i);
                    } else {
                        assert(all[owner@[ii] as int] == done[owner@[ii] as int]);
                    }
                }
                assert(labelled(all, n as int, assigned@, owner@));
                assert forall|cc: int, k: int| 0 <= cc < all.len() && 0 < k < all[cc].len() implies
                    #[trigger] has_parent(adj@, all[cc], k) by {
                    assert(cc != c);
                    assert(all[cc] == done[cc]);
                    assert(has_parent(adj@, done[cc], k));
                }
            }
            let mut head: usize = 0;
            while head < cur.len()
                invariant
                    n == adj@.len(),
                    is_square(adj@),
                    i < n,
                    c == clusters@.len(),
                    done == views(clusters@),
                    assigned@.len() == n,
                    owner@.len() == n,
                    cur@.len() > 0,
                    cur@[0] == i,
                    head <= cur@.len(),
                    count_true(assigned@) == base + cur@.len(),
                    base >= c,
                    labelled(done.push(cur@), n as int, assigned@, owner@),
                    rooted(adj@, done.push(cur@)),
                    parented(adj@, done.push(cur@)),
                    closed(adj@, done, c as int, assigned@, owner@),
                    forall|k: int, j: int| 0 <= k < head && 0 <= j < n
                        && #[trigger] edge(adj@, cur@[k] as int, j) ==> assigned@[j] && owner@[j] <= c,
                    forall|x: int| 0 <= x <= i ==> assigned@[x],
                decreases n - head,
            {
                proof {
                    lemma_count_true_bound(assigned@);
                }
                proof {
                    let all = done.push(cur@);
                    assert(all[c as int] == cur@);
                    assert(all[c as int][head as int] == cur@[head as int]);
                }
                let m = cur[head];
                let row = &adj[m];
                let mut j: usize = 0;
                while j < n
                    invariant
                        n == adj@.len(),
                        is_square(adj@),
                        i < n,
                        m < n,
                        row@ == adj@[m as int]@,
                        c == clusters@.len(),
                        done == views(clusters@),
                        assigned@.len() == n,
                        owner@.len() == n,
                        cur@.len() > 0,
                        cur@[0] == i,
                        head < cur@.len(),
                        cur@[head as int] == m,
                        count_true(assigned@) == base + cur@.len(),
                        labelled(done.push(cur@), n as int, assigned@, owner@),
                        rooted(adj@, done.push(cur@)),
                        parented(adj@, done.push(cur@)),
                        closed(adj@, done, c as int, assigned@, owner@),
                        forall|k: int, jj: int| 0 <= k < head && 0 <= jj < n
                            && #[trigger] edge(adj@, cur@[k] as int, jj) ==> assigned@[jj] && owner@[jj] <= c,
                        forall|jj: int| 0 <= jj < j && #[trigger] edge(adj@, m as int, jj) ==> assigned@[jj] && owner@[jj] <= c,
                        forall|x: int| 0 <= x <= i ==> assigned@[x],
                        j <= n,
                    decreases n - j,
                {
                    if row[j] && !assigned[j] {
                        let ghost old_cur = cur@;
                        let ghost prev_assigned = assigned@;
                        let ghost prev_owner = owner@;
                        proof {
                            lemma_count_true_set(assigned@, j as int);
                            assert(done.push(cur@)[c as int] == cur@);
                            assert(reaches(adj@, i as int, m as int));
                            lemma_reaches_step(adj@, i as int, m as int, j as int);
                            lemma_extend_labelled(done, cur@, n as int, assigned@, owner@, j, c);
                            lemma_extend_paths(adj@, done, cur@, head as int, j);
                        }
                        assigned.set(j, true);
                        owner.set(j, c);
                        cur.push(j);
                        proof {
                            assert forall|k: int, jj: int| 0 <= k < head && 0 <= jj < n
                                && #[trigger] edge(adj@, cur@[k] as int, jj) implies assigned@[jj] && owner@[jj] <= c by {
                                assert(cur@[k] == old_cur[k]);
                            }
                            assert forall|jj: int| 0 <= jj <= j && #[trigger] edge(adj@, m as int, jj)
                                implies assigned@[jj] && owner@[jj] <= c by {
                                if jj < j {
                                    assert(prev_assigned[jj] && prev_owner[jj] <= c);
                                }
                            }
                        }
                    } else {
                        proof {
                            if edge(adj@, m as int, j as int) {
                                assert(assigned@[j as int]);
                                assert(owner@[j as int] < done.push(cur@).len());
                            }
                        }
                    }
                    j += 1;
                }
                head += 1;
            }
            proof {
                let all = done.push(cur@);
                assert(views(clusters@.push(cur)) =~= all);
                assert forall|cc: int, k: int, jj: int| 0 <= cc < all.len() && 0 <= k < all[cc].len() && 0 <= jj < n
                    && #[trigger] edge(adj@, all[cc][k] as int, jj) implies assigned@[jj] && owner@[jj] <= cc by {
                    if cc == c {
                        assert(all[cc][k] == cur@[k]);
                    } else {
                        assert(all[cc] == done[cc]);
                    }
                }
            }
            clusters.push(cur);
        }
        i += 1;
    }
    proof {
        let cl = views(clusters@);
        assert forall|ii: int| 0 <= ii < n implies cluster_of(cl, ii) == owner@[ii] as int by {
            assert(assigned@[ii]);
            assert(member(cl, owner@[ii] as int, ii));
            let c2 = cluster_of(cl, ii);
            let k = choose|k: int| 0 <= k < cl[c2].len() && cl[c2][k] as int == ii;
            assert(cl[c2][k] == ii);
        }
        assert forall|cc: int, ii: int| 0 <= cc < cl.len() && #[trigger] member(cl, cc, ii)
            implies cluster_of(cl, ii) == cc by {
            let k = choose|k: int| 0 <= k < cl[cc].len() && cl[cc][k] as int == ii;
            assert(cl[cc][k] == ii);
        }
        assert forall|cc: int, k: int| 0 <= cc < cl.len() && 0 <= k < cl[cc].len() implies #[trigger] cl[cc][k] < n by {}
        assert forall|cc: int| 0 <= cc < cl.len() implies (#[trigger] cl[cc]).len() > 0 && cl[cc].no_duplicates() by {}
        assert forall|ii: int| 0 <= ii < n implies 0 <= #[trigger] cluster_of(cl, ii) < cl.len() && member(cl, cluster_of(cl, ii), ii) by {
            assert(assigned@[ii]);
            assert(cluster_of(cl, ii) == owner@[ii] as int);
        }
        assert(is_partition(cl, n as int));
        assert forall|cc: int, k: int, jj: int| 0 <= cc < cl.len() && 0 <= k < cl[cc].len() && 0 <= jj < n
            && #[trigger] edge(adj@, cl[cc][k] as int, jj) implies cluster_of(cl, jj) <= cc by {
            assert(owner@[jj] <= cc);
        }
        assert forall|cc: int, x: int| #![trigger cl[cc][0], cluster_of(cl, x)]
            0 <= cc < cl.len() && 0 <= x < cl[cc][0] implies cluster_of(cl, x) < cc by {
            assert(assigned@[x]);
        }
    }
    clusters
}

/// Every dimension stands in exactly one cluster, and exactly once there:
/// no dimension is dropped and none is duplicated.
pub proof fn lemma_each_dimension_once(adj: Seq<Vec<bool>>, cl: Seq<Seq<usize>>, i: int)
    requires
        is_clustering(adj, cl),
        0 <= i < adj.len(),
    ensures
        exists|c: int, k: int| 0 <= c < cl.len() && 0 <= k < cl[c].len() && cl[c][k] as int == i,
        forall|c1: int, k1: int, c2: int, k2: int|
            0 <= c1 < cl.len() && 0 <= k1 < cl[c1].len() && 0 <= c2 < cl.len() && 0 <= k2 < cl[c2].len()
            && #[trigger] cl[c1][k1] as int == i && #[trigger] cl[c2][k2] as int == i
            ==> c1 == c2 && k1 == k2,
{
    let c = cluster_of(cl, i);
    assert(member(cl, c, i));
    assert forall|c1: int, k1: int, c2: int, k2: int|
        0 <= c1 < cl.len() && 0 <= k1 < cl[c1].len() && 0 <= c2 < cl.len() && 0 <= k2 < cl[c2].len()
        && #[trigger] cl[c1][k1] as int == i && #[trigger] cl[c2][k2] as int == i
        implies c1 == c2 && k1 == k2 by {
        assert(member(cl, c1, i));
        assert(member(cl, c2, i));
        assert(cl[c1].no_duplicates());
    }
}

/// Two dimensions that lie within eps of each other, each taken as the
/// reference, land in the same cluster.
pub proof fn lemma_mutual_neighbors_together(adj: Seq<Vec<bool>>, cl: Seq<Seq<usize>>, i: int, j: int)
    requires
        is_clustering(adj, cl),
        0 <= i < adj.len(),
        0 <= j < adj.len(),
        edge(adj, i, j),
        edge(adj, j, i),
    ensures
        cluster_of(cl, i) == cluster_of(cl, j),
{
    let ci = cluster_of(cl, i);
    let cj = cluster_of(cl, j);
    assert(member(cl, ci, i));
    assert(member(cl, cj, j));
    let ki = choose|k: int| 0 <= k < cl[ci].len() && cl[ci][k] as int == i;
    let kj = choose|k: int| 0 <= k < cl[cj].len() && cl[cj][k] as int == j;
    assert(edge(adj, cl[ci][ki] as int, j));
    assert(edge(adj, cl[cj][kj] as int, i));
}

/// Two dimensions that no single dimension reaches both of by a chain of
/// eps-neighbor steps land in different clusters.
pub proof fn lemma_unchained_apart(adj: Seq<Vec<bool>>, cl: Seq<Seq<usize>>, i: int, j: int)
    requires
        is_clustering(adj, cl),
        0 <= i < adj.len(),
        0 <= j < adj.len(),
        forall|s: int| 0 <= s < adj.len() ==> !(#[trigger] reaches(adj, s, i) && reaches(adj, s, j)),
    ensures
        cluster_of(cl, i) != cluster_of(cl, j),
{
    let ci = cluster_of(cl, i);
    let cj = cluster_of(cl, j);
    assert(member(cl, ci, i));
    assert(member(cl, cj, j));
    if ci == cj {
        let ki = choose|k: int| 0 <= k < cl[ci].len() && cl[ci][k] as int == i;
        let kj = choose|k: int| 0 <= k < cl[ci].len() && cl[ci][k] as int == j;
        assert(reaches(adj, cl[ci][0] as int, cl[ci][ki] as int));
        assert(reaches(adj, cl[ci][0] as int, cl[ci][kj] as int));
        assert(cl[ci][0] < adj.len());
    }
}

} // verus!
