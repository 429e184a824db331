//! The DBSCAN labeling core.
//!
//! The input is a neighbor table: `neighbors[i]` lists the indices of the
//! points within the clustering radius of point `i` (whether a point lists
//! itself is the neighbor service's choice; the `min_pts` threshold is simply
//! compared against the length of each list, so the caller must use one
//! convention consistently).  The output assigns each point a [`Label`]:
//! noise, or membership in a cluster together with the index of the point
//! whose expansion discovered it.

use vstd::prelude::*;

verus! {

/// The classification of one point after (or during) a labeling run.
#[derive(Copy, Clone, Debug, PartialEq, Eq, Structural)]
pub enum Label {
    /// Not yet visited.  Never survives to the output.
    Undefined,
    /// Visited and found to have fewer than `min_pts` neighbors, and not (so
    /// far) reached from any core point's expansion.  May still be promoted
    /// to `Cluster` later.
    Noise,
    /// Member of cluster `id`; `prev` is the index of the point whose
    /// expansion discovered this point (the point's own index for the seed
    /// that started the cluster).  Terminal: never relabeled.
    Cluster { id: u32, prev: usize },
}

/// Why a configuration was rejected by [`label_clusters`].
#[derive(Copy, Clone, Debug, PartialEq, Eq, Structural)]
pub enum ConfigError {
    /// A `min_pts` of zero would make every point a core point.
    MinPtsZero,
    /// Some neighbor list names an index outside the point range.
    NeighborIndexOutOfRange,
    /// More points than cluster ids can number.
    TooManyPoints,
}

/// A well-formed neighbor table: every listed index is in range.
pub open spec fn table_wf(nb: Seq<Seq<usize>>) -> bool {
    forall|i: int, j: int|
        0 <= i < nb.len() && 0 <= j < nb[i].len() ==> (#[trigger] nb[i][j]) < nb.len()
}

/// How many points are still unvisited.
pub open spec fn undef_count(labels: Seq<Label>) -> nat
    decreases labels.len(),
{
    if labels.len() == 0 {
        0
    } else {
        undef_count(labels.drop_last()) + if labels.last() is Undefined {
            1nat
        } else {
            0nat
        }
    }
}

proof fn lemma_undef_count_update(labels: Seq<Label>, k: int, v: Label)
    requires
        0 <= k < labels.len(),
        !(v is Undefined),
    ensures
        undef_count(labels.update(k, v)) + if labels[k] is Undefined {
            1nat
        } else {
            0nat
        } == undef_count(labels),
    decreases labels.len(),
{
    let updated = labels.update(k, v);
    if k == labels.len() - 1 {
        assert(updated.drop_last() =~= labels.drop_last());
    } else {
        assert(updated.drop_last() =~= labels.drop_last().update(k, v));
        lemma_undef_count_update(labels.drop_last(), k, v);
    }
}

/// The worklist entries for one expansion step: each neighbor in `row`,
/// paired with the discovering point `p`.
pub open spec fn pair_with(row: Seq<usize>, p: usize) -> Seq<(usize, usize)> {
    row.map_values(|x: usize| (x, p))
}

/// Every index a worklist entry mentions is in range.
pub open spec fn queue_wf(nb: Seq<Seq<usize>>, queue: Seq<(usize, usize)>) -> bool {
    forall|k: int|
        0 <= k < queue.len() ==> (#[trigger] queue[k]).0 < nb.len() && queue[k].1 < nb.len()
}

/// Drains the worklist of one cluster expansion, last entry first.  A popped
/// entry `(c, p)` promotes `c` if it is noise, skips it if it already holds a
/// cluster label, and otherwise labels it and, if `c` is itself a core
/// point, pushes every neighbor of `c` paired with `c`.
pub open spec fn expand(
    nb: Seq<Seq<usize>>,
    min_pts: nat,
    cid: u32,
    labels: Seq<Label>,
    queue: Seq<(usize, usize)>,
) -> Seq<Label>
    decreases undef_count(labels), queue.len(),
        when labels.len() == nb.len() && table_wf(nb) && queue_wf(nb, queue)
        via expand_decreases
{
    if queue.len() == 0 {
        labels
    } else {
        let (c, p) = queue.last();
        let rest = queue.drop_last();
        if labels[c as int] is Noise {
            expand(nb, min_pts, cid, labels.update(c as int, Label::Cluster { id: cid, prev: p }), rest)
        } else if !(labels[c as int] is Undefined) {
            expand(nb, min_pts, cid, labels, rest)
        } else {
            let relabeled = labels.update(c as int, Label::Cluster { id: cid, prev: p });
            if nb[c as int].len() >= min_pts {
                expand(nb, min_pts, cid, relabeled, rest + pair_with(nb[c as int], c))
            } else {
                expand(nb, min_pts, cid, relabeled, rest)
            }
        }
    }
}

#[via_fn]
proof fn expand_decreases(
    nb: Seq<Seq<usize>>,
    min_pts: nat,
    cid: u32,
    labels: Seq<Label>,
    queue: Seq<(usize, usize)>,
) {
    if queue.len() > 0 {
        let (c, p) = queue.last();
        if labels[c as int] is Noise || labels[c as int] is Undefined {
            lemma_undef_count_update(labels, c as int, Label::Cluster { id: cid, prev: p });
        }
    }
}

/// The outer pass: seeds in index order.  An unvisited seed with too few
/// neighbors becomes noise; an unvisited core seed roots cluster `cc` at
/// itself and expands it, after which the cluster count goes up by one.
pub open spec fn run_from(
    nb: Seq<Seq<usize>>,
    min_pts: nat,
    seed: int,
    cc: nat,
    labels: Seq<Label>,
) -> (nat, Seq<Label>)
    decreases nb.len() - seed,
        when 0 <= seed && labels.len() == nb.len() && table_wf(nb)
{
    if seed >= nb.len() {
        (cc, labels)
    } else if !(labels[seed] is Undefined) {
        run_from(nb, min_pts, seed + 1, cc, labels)
    } else if nb[seed].len() < min_pts {
        run_from(nb, min_pts, seed + 1, cc, labels.update(seed, Label::Noise))
    } else {
        let rooted = labels.update(seed, Label::Cluster { id: cc as u32, prev: seed as usize });
        let expanded = expand(nb, min_pts, cc as u32, rooted, pair_with(nb[seed], seed as usize));
        run_from(nb, min_pts, seed + 1, cc + 1, expanded)
    }
}

/// The all-`Undefined` initial labeling.
pub open spec fn all_undefined(n: nat) -> Seq<Label> {
    Seq::new(n, |i: int| Label::Undefined)
}

/// The full labeling run: cluster count and final label per point.
pub open spec fn dbscan_spec(nb: Seq<Seq<usize>>, min_pts: nat) -> (nat, Seq<Label>) {
    run_from(nb, min_pts, 0, 0, all_undefined(nb.len()))
}

/// The neighbor table as a sequence of sequences of indices.
pub open spec fn table_view(neighbors: Seq<Vec<usize>>) -> Seq<Seq<usize>> {
    Seq::new(neighbors.len(), |i: int| neighbors[i]@)
}

/// Checks that every index in the neighbor table is in range.
pub fn check_neighbor_table(neighbors: &Vec<Vec<usize>>) -> (r: bool)
    ensures
        r == table_wf(table_view(neighbors@)),
{
    let n = neighbors.len();
    let ghost nb = table_view(neighbors@);
    let mut i: usize = 0;
    while i < n
        invariant
            i <= n,
            n == neighbors@.len(),
            nb == table_view(neighbors@),
            forall|a: int, b: int|
                0 <= a < i && 0 <= b < nb[a].len() ==> (#[trigger] nb[a][b]) < n,
        decreases n - i,
    {
        let row = &neighbors[i];
        let mut j: usize = 0;
        while j < row.len()
            invariant
                j <= row@.len(),
                i < n,
                n == neighbors@.len(),
                nb == table_view(neighbors@),
                row@ == nb[i as int],
                forall|b: int| 0 <= b < j ==> (#[trigger] nb[i as int][b]) < n,
            decreases row@.len() - j,
        {
            if row[j] >= n {
                return false;
            }
            j = j + 1;
        }
        i = i + 1;
    }
    true
}

/// The discovery link of a non-root cluster member `i` is sound: its `prev`
/// is an in-range core point of the same cluster whose neighbor list
/// contains `i` — so `i` lies within the radius of a core point of its
/// cluster.
pub open spec fn prev_link_ok(nb: Seq<Seq<usize>>, min_pts: nat, labels: Seq<Label>, i: int) -> bool {
    let p = labels[i]->Cluster_prev as int;
    &&& 0 <= p < labels.len()
    &&& labels[p] is Cluster
    &&& labels[p]->Cluster_id == labels[i]->Cluster_id
    &&& nb[p].len() >= min_pts
    &&& nb[p].contains(i as usize)
}

/// Cluster `c` has a self-rooted member: its seed, the point at which the
/// cluster was started.
pub open spec fn has_seed(labels: Seq<Label>, c: u32) -> bool {
    exists|i: int|
        0 <= i < labels.len() && (#[trigger] labels[i]) == (Label::Cluster {
            id: c,
            prev: i as usize,
        })
}

/// The state invariants of a labeling in which `cc` clusters have been
/// discovered so far:
/// - a noise point was found to have fewer than `min_pts` neighbors;
/// - every cluster id in use is below `cc`;
/// - every id below `cc` has a self-rooted member (the cluster's seed);
/// - every non-root member was discovered by a core member of its own
///   cluster within whose radius it lies;
/// - every self-rooted member is a core point.
pub open spec fn cluster_invariants(
    nb: Seq<Seq<usize>>,
    min_pts: nat,
    cc: nat,
    labels: Seq<Label>,
) -> bool {
    &&& labels.len() == nb.len()
    &&& forall|i: int|
        0 <= i < labels.len() && (#[trigger] labels[i]) is Noise ==> nb[i].len() < min_pts
    &&& forall|i: int|
        0 <= i < labels.len() && (#[trigger] labels[i]) is Cluster
            ==> (labels[i]->Cluster_id as nat) < cc
    &&& forall|c: u32| (c as nat) < cc ==> #[trigger] has_seed(labels, c)
    &&& forall|i: int|
        0 <= i < labels.len() && (#[trigger] labels[i]) is Cluster
            && labels[i]->Cluster_prev as int != i ==> prev_link_ok(nb, min_pts, labels, i)
    &&& forall|i: int|
        0 <= i < labels.len() && (#[trigger] labels[i]) is Cluster
            && labels[i]->Cluster_prev as int == i ==> nb[i].len() >= min_pts
}

/// A worklist entry `(c, p)` was pushed by a core point `p` that already
/// holds a label in the cluster being expanded and has `c` in its radius.
spec fn pair_ok(
    nb: Seq<Seq<usize>>,
    min_pts: nat,
    cid: u32,
    labels: Seq<Label>,
    pair: (usize, usize),
) -> bool {
    let c = pair.0;
    let p = pair.1;
    &&& (c as int) < nb.len()
    &&& (p as int) < nb.len()
    &&& labels[p as int] is Cluster
    &&& labels[p as int]->Cluster_id == cid
    &&& nb[p as int].len() >= min_pts
    &&& nb[p as int].contains(c)
}

/// Every entry of the worklist satisfies [`pair_ok`].
spec fn queue_inv(
    nb: Seq<Seq<usize>>,
    min_pts: nat,
    cid: u32,
    labels: Seq<Label>,
    queue: Seq<(usize, usize)>,
) -> bool {
    forall|k: int|
        0 <= k < queue.len() ==> pair_ok(nb, min_pts, cid, labels, #[trigger] queue[k])
}

/// Every neighbor of a core point that holds a cluster label is itself a
/// cluster member already, or its visit is still pending in the worklist.
/// With an empty worklist this says that no neighbor of a clustered core
/// point was left out of a cluster.
pub open spec fn core_neighbors_covered(
    nb: Seq<Seq<usize>>,
    min_pts: nat,
    labels: Seq<Label>,
    queue: Seq<(usize, usize)>,
) -> bool {
    forall|p: int, j: int|
        0 <= p < nb.len() && labels[p] is Cluster && nb[p].len() >= min_pts && 0 <= j
            < nb[p].len() ==> labels[(#[trigger] nb[p][j]) as int] is Cluster || queue.contains(
            (nb[p][j], p as usize),
        )
}

/// A witness that the discovery links are acyclic: following `prev` from a
/// non-root member strictly lowers the rank.
spec fn rank_ok(labels: Seq<Label>, rank: Seq<nat>) -> bool {
    &&& rank.len() == labels.len()
    &&& forall|i: int|
        0 <= i < labels.len() && (#[trigger] labels[i]) is Cluster
            && labels[i]->Cluster_prev as int != i ==> {
            let p = labels[i]->Cluster_prev as int;
            0 <= p < labels.len() && rank[p] < rank[i]
        }
}

#[verifier::rlimit(50)]
proof fn lemma_expand_preserves(
    nb: Seq<Seq<usize>>,
    min_pts: nat,
    cid: u32,
    labels: Seq<Label>,
    queue: Seq<(usize, usize)>,
    rank: Seq<nat>,
) -> (rank2: Seq<nat>)
    requires
        labels.len() == nb.len(),
        table_wf(nb),
        queue_wf(nb, queue),
        cluster_invariants(nb, min_pts, (cid as nat) + 1, labels),
        queue_inv(nb, min_pts, cid, labels, queue),
        core_neighbors_covered(nb, min_pts, labels, queue),
        rank_ok(labels, rank),
    ensures
        ({
            let l2 = expand(nb, min_pts, cid, labels, queue);
            &&& l2.len() == nb.len()
            &&& cluster_invariants(nb, min_pts, (cid as nat) + 1, l2)
            &&& core_neighbors_covered(nb, min_pts, l2, Seq::<(usize, usize)>::empty())
            &&& rank_ok(l2, rank2)
            &&& forall|i: int|
                0 <= i < nb.len() && (#[trigger] labels[i]) is Cluster ==> l2[i] == labels[i]
            &&& forall|i: int|
                0 <= i < nb.len() && !((#[trigger] labels[i]) is Undefined) ==> !(l2[i] is Undefined)
            &&& forall|i: int|
                0 <= i < nb.len() && (#[trigger] l2[i]) is Noise ==> l2[i] == labels[i]
        }),
    decreases undef_count(labels), queue.len(),
{
    if queue.len() == 0 {
        rank
    } else {
        let pair = queue.last();
        let c = pair.0 as int;
        let p = pair.1;
        let rest = queue.drop_last();
        assert(pair_ok(nb, min_pts, cid, labels, queue[queue.len() - 1]));
        if labels[c] is Noise || labels[c] is Undefined {
            // `p` holds a cluster label, so it is not the point being labeled
            assert(p as int != c);
            let l1 = labels.update(c, Label::Cluster { id: cid, prev: p });
            let q2: Seq<(usize, usize)> = if labels[c] is Undefined && nb[c].len() >= min_pts {
                rest + pair_with(nb[c], pair.0)
            } else {
                rest
            };
            let rank1 = rank.update(c, (rank[p as int] + 1) as nat);
            lemma_undef_count_update(labels, c, Label::Cluster { id: cid, prev: p });
            // the seed witness of each discovered cluster is still in place
            assert forall|cu: u32| (cu as nat) < (cid as nat) + 1 implies #[trigger] has_seed(
                l1,
                cu,
            ) by {
                assert(has_seed(labels, cu));
                let w = choose|i: int|
                    0 <= i < labels.len() && (#[trigger] labels[i]) == (Label::Cluster {
                        id: cu,
                        prev: i as usize,
                    });
                assert(l1[w] == labels[w]);
            }
            // a pending pair's discoverer keeps its label, and newly pushed
            // pairs come from the now-labeled core point `c`
            assert forall|k: int| 0 <= k < q2.len() implies pair_ok(
                nb,
                min_pts,
                cid,
                l1,
                #[trigger] q2[k],
            ) by {
                if k < rest.len() {
                    assert(pair_ok(nb, min_pts, cid, labels, queue[k]));
                } else {
                    assert(q2[k] == (nb[c][k - rest.len()], pair.0));
                }
            }
            assert(queue_wf(nb, q2)) by {
                assert forall|k: int| 0 <= k < q2.len() implies (#[trigger] q2[k]).0 < nb.len()
                    && q2[k].1 < nb.len() by {
                    if k < rest.len() {
                        assert(queue[k] == rest[k]);
                    } else {
                        assert(q2[k] == (nb[c][k - rest.len()], pair.0));
                        assert(nb[c][k - rest.len()] < nb.len());
                    }
                }
            }
            // every core neighbor obligation survives the step
            assert forall|pp: int, j: int|
                0 <= pp < nb.len() && l1[pp] is Cluster && nb[pp].len() >= min_pts && 0 <= j
                    < nb[pp].len() implies l1[(#[trigger] nb[pp][j]) as int] is Cluster
                || q2.contains((nb[pp][j], pp as usize)) by {
                let x = nb[pp][j];
                if pp == c {
                    // `c` was noise only if it is not core; a core `c` pushed
                    // all its neighbors
                    assert(labels[c] is Undefined);
                    assert(q2[rest.len() + j] == (nb[c][j], pair.0));
                } else {
                    assert(labels[pp] is Cluster);
                    if !(labels[x as int] is Cluster) {
                        let k = choose|k: int|
                            0 <= k < queue.len() && queue[k] == (x, pp as usize);
                        if k < queue.len() - 1 {
                            assert(q2[k] == rest[k]);
                            assert(q2[k] == (x, pp as usize));
                            assert(q2.contains((x, pp as usize)));
                        } else {
                            assert(x as int == c);
                        }
                    }
                }
            }
            let rank3 = lemma_expand_preserves(nb, min_pts, cid, l1, q2, rank1);
            let l2 = expand(nb, min_pts, cid, labels, queue);
            assert(l2 == expand(nb, min_pts, cid, l1, q2));
            assert forall|i: int|
                0 <= i < nb.len() && (#[trigger] labels[i]) is Cluster implies l2[i]
                == labels[i] by {
                assert(l1[i] == labels[i]);
            }
            assert forall|i: int|
                0 <= i < nb.len() && !((#[trigger] labels[i]) is Undefined) implies !(l2[i]
                is Undefined) by {
                if i == c {
                    assert(l1[i] is Cluster);
                } else {
                    assert(l1[i] == labels[i]);
                }
            }
            assert forall|i: int|
                0 <= i < nb.len() && (#[trigger] l2[i]) is Noise implies l2[i] == labels[i] by {
                assert(l2[i] == l1[i]);
                assert(i != c);
                assert(l1[i] == labels[i]);
            }
            rank3
        } else {
            // already a cluster member: the entry is dropped
            assert forall|pp: int, j: int|
                0 <= pp < nb.len() && labels[pp] is Cluster && nb[pp].len() >= min_pts && 0 <= j
                    < nb[pp].len() implies labels[(#[trigger] nb[pp][j]) as int] is Cluster
                || rest.contains((nb[pp][j], pp as usize)) by {
                let x = nb[pp][j];
                if !(labels[x as int] is Cluster) {
                    let k = choose|k: int| 0 <= k < queue.len() && queue[k] == (x, pp as usize);
                    if k < queue.len() - 1 {
                        assert(rest[k] == (x, pp as usize));
                    } else {
                        assert(x as int == c);
                    }
                }
            }
            let rank3 = lemma_expand_preserves(nb, min_pts, cid, labels, rest, rank);
            rank3
        }
    }
}

#[verifier::rlimit(50)]
proof fn lemma_run_preserves(
    nb: Seq<Seq<usize>>,
    min_pts: nat,
    seed: int,
    cc: nat,
    labels: Seq<Label>,
    rank: Seq<nat>,
) -> (rank2: Seq<nat>)
    requires
        0 <= seed <= nb.len(),
        nb.len() <= u32::MAX,
        cc <= seed,
        labels.len() == nb.len(),
        table_wf(nb),
        cluster_invariants(nb, min_pts, cc, labels),
        core_neighbors_covered(nb, min_pts, labels, Seq::<(usize, usize)>::empty()),
        rank_ok(labels, rank),
        forall|j: int| 0 <= j < seed ==> !((#[trigger] labels[j]) is Undefined),
    ensures
        ({
            let fc = run_from(nb, min_pts, seed, cc, labels).0;
            let fl = run_from(nb, min_pts, seed, cc, labels).1;
            &&& fl.len() == nb.len()
            &&& cc <= fc <= cc + nb.len() - seed
            &&& cluster_invariants(nb, min_pts, fc, fl)
            &&& core_neighbors_covered(nb, min_pts, fl, Seq::<(usize, usize)>::empty())
            &&& rank_ok(fl, rank2)
            &&& forall|j: int| 0 <= j < nb.len() ==> !((#[trigger] fl[j]) is Undefined)
            &&& forall|j: int|
                0 <= j < nb.len() && (#[trigger] labels[j]) is Cluster ==> fl[j] == labels[j]
        }),
    decreases nb.len() - seed,
{
    if seed >= nb.len() {
        rank
    } else if !(labels[seed] is Undefined) {
        lemma_run_preserves(nb, min_pts, seed + 1, cc, labels, rank)
    } else if nb[seed].len() < min_pts {
        let l1 = labels.update(seed, Label::Noise);
        // no clustered core point counts the seed among its neighbors, or the
        // seed would already hold a cluster label
        assert forall|pp: int, j: int|
            0 <= pp < nb.len() && l1[pp] is Cluster && nb[pp].len() >= min_pts && 0 <= j
                < nb[pp].len() implies l1[(#[trigger] nb[pp][j]) as int] is Cluster
            || Seq::<(usize, usize)>::empty().contains((nb[pp][j], pp as usize)) by {
            assert(pp != seed);
            assert(labels[nb[pp][j] as int] is Cluster);
            assert(nb[pp][j] as int != seed);
        }
        assert forall|cu: u32| (cu as nat) < cc implies #[trigger] has_seed(l1, cu) by {
            assert(has_seed(labels, cu));
            let w = choose|i: int|
                0 <= i < labels.len() && (#[trigger] labels[i]) == (Label::Cluster {
                    id: cu,
                    prev: i as usize,
                });
            assert(l1[w] == labels[w]);
        }
        lemma_run_preserves(nb, min_pts, seed + 1, cc, l1, rank)
    } else {
        let rooted = labels.update(
            seed,
            Label::Cluster { id: cc as u32, prev: seed as usize },
        );
        let queue0 = pair_with(nb[seed], seed as usize);
        assert(rooted[seed] == (Label::Cluster { id: cc as u32, prev: seed as usize }));
        assert forall|cu: u32| (cu as nat) < cc + 1 implies #[trigger] has_seed(rooted, cu) by {
            if (cu as nat) < cc {
                assert(has_seed(labels, cu));
                let w = choose|i: int|
                    0 <= i < labels.len() && (#[trigger] labels[i]) == (Label::Cluster {
                        id: cu,
                        prev: i as usize,
                    });
                assert(rooted[w] == labels[w]);
            } else {
                assert(cu == cc as u32);
            }
        }
        assert(queue_wf(nb, queue0)) by {
            assert forall|k: int| 0 <= k < queue0.len() implies (#[trigger] queue0[k]).0
                < nb.len() && queue0[k].1 < nb.len() by {
                assert(queue0[k] == (nb[seed][k], seed as usize));
            }
        }
        assert forall|k: int| 0 <= k < queue0.len() implies pair_ok(
            nb,
            min_pts,
            cc as u32,
            rooted,
            #[trigger] queue0[k],
        ) by {
            assert(queue0[k] == (nb[seed][k], seed as usize));
            assert(nb[seed].contains(nb[seed][k]));
        }
        // the new seed's neighbors are all pending; other core members keep
        // their neighbors clustered
        assert forall|pp: int, j: int|
            0 <= pp < nb.len() && rooted[pp] is Cluster && nb[pp].len() >= min_pts && 0 <= j
                < nb[pp].len() implies rooted[(#[trigger] nb[pp][j]) as int] is Cluster
            || queue0.contains((nb[pp][j], pp as usize)) by {
            if pp == seed {
                assert(queue0[j] == (nb[seed][j], seed as usize));
            } else {
                assert(labels[pp] is Cluster);
                assert(labels[nb[pp][j] as int] is Cluster);
                assert(nb[pp][j] as int != seed);
            }
        }
        let rank1 = lemma_expand_preserves(nb, min_pts, cc as u32, rooted, queue0, rank);
        let expanded = expand(nb, min_pts, cc as u32, rooted, queue0);
        assert(expanded[seed] == rooted[seed]);
        assert forall|j: int| 0 <= j < seed + 1 implies !((#[trigger] expanded[j]) is Undefined) by {
            if j == seed {
                assert(rooted[j] is Cluster);
            } else {
                assert(!(labels[j] is Undefined));
                assert(!(rooted[j] is Undefined));
            }
        }
        let rank3 = lemma_run_preserves(nb, min_pts, seed + 1, cc + 1, expanded, rank1);
        assert forall|j: int|
            0 <= j < nb.len() && (#[trigger] labels[j]) is Cluster implies run_from(
                nb,
                min_pts,
                seed,
                cc,
                labels,
            ).1[j] == labels[j] by {
            assert(rooted[j] == labels[j]);
            assert(expanded[j] == rooted[j]);
        }
        rank3
    }
}

proof fn lemma_dbscan_invariants(nb: Seq<Seq<usize>>, min_pts: nat) -> (rank: Seq<nat>)
    requires
        table_wf(nb),
        nb.len() <= u32::MAX,
    ensures
        ({
            let fc = dbscan_spec(nb, min_pts).0;
            let fl = dbscan_spec(nb, min_pts).1;
            &&& fl.len() == nb.len()
            &&& fc <= nb.len()
            &&& cluster_invariants(nb, min_pts, fc, fl)
            &&& core_neighbors_covered(nb, min_pts, fl, Seq::<(usize, usize)>::empty())
            &&& rank_ok(fl, rank)
            &&& forall|j: int| 0 <= j < nb.len() ==> !((#[trigger] fl[j]) is Undefined)
        }),
{
    let init = all_undefined(nb.len());
    let rank0 = Seq::<nat>::new(nb.len(), |i: int| 0nat);
    assert forall|i: int| 0 <= i < init.len() implies !((#[trigger] init[i]) is Noise) && !(init[i]
        is Cluster) by {
        assert(init[i] is Undefined);
    }
    lemma_run_preserves(nb, min_pts, 0, 0, init, rank0)
}

/// The index a cluster member's `prev` link points at.
pub open spec fn prev_of(labels: Seq<Label>, i: int) -> int {
    labels[i]->Cluster_prev as int
}

/// The point reached from `i` after following `prev` links `k` times.
pub open spec fn chain(labels: Seq<Label>, i: int, k: nat) -> int
    decreases k,
{
    if k == 0 {
        i
    } else {
        prev_of(labels, chain(labels, i, (k - 1) as nat))
    }
}

/// Step `j` of the `prev` walk from `i` is an in-range member of the same
/// cluster as `i`.
pub open spec fn in_chain_ok(labels: Seq<Label>, i: int, j: nat) -> bool {
    &&& 0 <= chain(labels, i, j) < labels.len()
    &&& labels[chain(labels, i, j)] is Cluster
    &&& labels[chain(labels, i, j)]->Cluster_id == labels[i]->Cluster_id
}

/// Following `prev` links from `i` for `k` steps stays inside `i`'s own
/// cluster, never revisits a point, and ends at a self-referencing root.
pub open spec fn chain_root_ok(labels: Seq<Label>, i: int, k: nat) -> bool {
    &&& forall|j: nat| j <= k ==> #[trigger] in_chain_ok(labels, i, j)
    &&& prev_of(labels, chain(labels, i, k)) == chain(labels, i, k)
    &&& forall|j1: nat, j2: nat|
        j1 < j2 <= k ==> #[trigger] chain(labels, i, j1) != #[trigger] chain(labels, i, j2)
}

proof fn lemma_chain_shift(labels: Seq<Label>, i: int, k: nat)
    ensures
        chain(labels, i, k + 1) == chain(labels, prev_of(labels, i), k),
    decreases k,
{
    assert(chain(labels, i, k + 1) == prev_of(labels, chain(labels, i, k)));
    if k == 0 {
        assert(chain(labels, i, 0) == i);
        assert(chain(labels, prev_of(labels, i), 0) == prev_of(labels, i));
    } else {
        lemma_chain_shift(labels, i, (k - 1) as nat);
        assert(chain(labels, prev_of(labels, i), k) == prev_of(
            labels,
            chain(labels, prev_of(labels, i), (k - 1) as nat),
        ));
    }
}

#[verifier::rlimit(50)]
proof fn lemma_chain_terminates(
    nb: Seq<Seq<usize>>,
    min_pts: nat,
    cc: nat,
    labels: Seq<Label>,
    rank: Seq<nat>,
    i: int,
)
    requires
        cluster_invariants(nb, min_pts, cc, labels),
        rank_ok(labels, rank),
        0 <= i < labels.len(),
        labels[i] is Cluster,
    ensures
        exists|k: nat|
            #[trigger] chain_root_ok(labels, i, k) && (forall|j: nat|
                j <= k ==> rank[#[trigger] chain(labels, i, j)] <= rank[i]),
    decreases rank[i],
{
    if prev_of(labels, i) == i {
        assert(chain(labels, i, 0) == i);
        assert forall|j: nat| j <= 0 implies #[trigger] in_chain_ok(labels, i, j) by {
            assert(chain(labels, i, 0) == i);
        }
        assert forall|j: nat| j <= 0 implies rank[#[trigger] chain(labels, i, j)] <= rank[i] by {
            assert(chain(labels, i, 0) == i);
        }
        assert(chain_root_ok(labels, i, 0));
    } else {
        let p = prev_of(labels, i);
        assert(prev_link_ok(nb, min_pts, labels, i));
        lemma_chain_terminates(nb, min_pts, cc, labels, rank, p);
        let kp = choose|k: nat|
            #[trigger] chain_root_ok(labels, p, k) && (forall|j: nat|
                j <= k ==> rank[#[trigger] chain(labels, p, j)] <= rank[p]);
        let k = kp + 1;
        assert forall|j: nat| j >= 1 implies #[trigger] chain(labels, i, j) == chain(
            labels,
            p,
            (j - 1) as nat,
        ) by {
            lemma_chain_shift(labels, i, (j - 1) as nat);
        }
        assert forall|j: nat| j <= k implies #[trigger] in_chain_ok(labels, i, j) by {
            if j == 0 {
                assert(chain(labels, i, 0) == i);
            } else {
                assert(chain(labels, i, j) == chain(labels, p, (j - 1) as nat));
                assert(in_chain_ok(labels, p, (j - 1) as nat));
            }
        }
        assert(chain(labels, i, k) == chain(labels, p, kp));
        assert forall|j1: nat, j2: nat| j1 < j2 <= k implies #[trigger] chain(labels, i, j1)
            != #[trigger] chain(labels, i, j2) by {
            if j1 == 0 {
                assert(chain(labels, i, 0) == i);
                assert(chain(labels, i, j2) == chain(labels, p, (j2 - 1) as nat));
                assert(rank[chain(labels, p, (j2 - 1) as nat)] <= rank[p]);
            } else {
                assert(chain(labels, i, j1) == chain(labels, p, (j1 - 1) as nat));
                assert(chain(labels, i, j2) == chain(labels, p, (j2 - 1) as nat));
            }
        }
        assert forall|j: nat| j <= k implies rank[#[trigger] chain(labels, i, j)] <= rank[i] by {
            if j == 0 {
                assert(chain(labels, i, 0) == i);
            } else {
                assert(chain(labels, i, j) == chain(labels, p, (j - 1) as nat));
                assert(rank[chain(labels, p, (j - 1) as nat)] <= rank[p]);
            }
        }
        assert(chain_root_ok(labels, i, k));
    }
}

/// No point is left unvisited: after a run, every label is `Noise` or
/// `Cluster`.
pub proof fn lemma_totality(nb: Seq<Seq<usize>>, min_pts: nat)
    requires
        table_wf(nb),
        nb.len() <= u32::MAX,
    ensures
        dbscan_spec(nb, min_pts).1.len() == nb.len(),
        forall|i: int|
            0 <= i < nb.len() ==> !((#[trigger] dbscan_spec(nb, min_pts).1[i]) is Undefined),
{
    lemma_dbscan_invariants(nb, min_pts);
}

/// A noise point was found to have fewer than `min_pts` neighbors when it
/// was visited, and no expansion ever reached it: every neighbor of a core
/// point holding a cluster label ends up in a cluster, so none of them is
/// noise.
pub proof fn lemma_noise_criterion(nb: Seq<Seq<usize>>, min_pts: nat)
    requires
        table_wf(nb),
        nb.len() <= u32::MAX,
    ensures
        forall|i: int|
            0 <= i < nb.len() && (#[trigger] dbscan_spec(nb, min_pts).1[i]) is Noise ==> nb[i].len()
                < min_pts,
        forall|p: int, j: int|
            0 <= p < nb.len() && dbscan_spec(nb, min_pts).1[p] is Cluster && nb[p].len() >= min_pts
                && 0 <= j < nb[p].len() ==> dbscan_spec(nb, min_pts).1[(#[trigger] nb[p][j]) as int]
                is Cluster,
{
    lemma_dbscan_invariants(nb, min_pts);
    let fl = dbscan_spec(nb, min_pts).1;
    assert forall|p: int, j: int|
        0 <= p < nb.len() && fl[p] is Cluster && nb[p].len() >= min_pts && 0 <= j
            < nb[p].len() implies fl[(#[trigger] nb[p][j]) as int] is Cluster by {
        assert(!Seq::<(usize, usize)>::empty().contains((nb[p][j], p as usize)));
    }
}

/// Every cluster member lies within the radius of a core point of its own
/// cluster: a non-root member's `prev` is such a core point, and a root is a
/// core point itself.  Conversely, every core point ends up in a cluster.
/// Together with [`lemma_forest`], every member is density-reachable from
/// its cluster's core root along its `prev` chain.
pub proof fn lemma_cluster_membership(nb: Seq<Seq<usize>>, min_pts: nat)
    requires
        table_wf(nb),
        nb.len() <= u32::MAX,
    ensures
        forall|i: int|
            0 <= i < nb.len() && (#[trigger] dbscan_spec(nb, min_pts).1[i]) is Cluster
                && dbscan_spec(nb, min_pts).1[i]->Cluster_prev as int != i ==> prev_link_ok(
                nb,
                min_pts,
                dbscan_spec(nb, min_pts).1,
                i,
            ),
        forall|i: int|
            0 <= i < nb.len() && (#[trigger] dbscan_spec(nb, min_pts).1[i]) is Cluster
                && dbscan_spec(nb, min_pts).1[i]->Cluster_prev as int == i ==> nb[i].len()
                >= min_pts,
        forall|i: int|
            0 <= i < nb.len() && nb[i].len() >= min_pts ==> (#[trigger] dbscan_spec(
                nb,
                min_pts,
            ).1[i]) is Cluster,
{
    lemma_dbscan_invariants(nb, min_pts);
    let fl = dbscan_spec(nb, min_pts).1;
    assert forall|i: int| 0 <= i < nb.len() && nb[i].len() >= min_pts implies (#[trigger] fl[i])
        is Cluster by {
        assert(!(fl[i] is Undefined));
        assert(!(fl[i] is Noise));
    }
}

/// The `prev` links form a forest: from any cluster member, following `prev`
/// stays in the member's own cluster, never revisits a point, and reaches a
/// self-referencing root.
pub proof fn lemma_forest(nb: Seq<Seq<usize>>, min_pts: nat)
    requires
        table_wf(nb),
        nb.len() <= u32::MAX,
    ensures
        forall|i: int|
            0 <= i < nb.len() && (#[trigger] dbscan_spec(nb, min_pts).1[i]) is Cluster
                ==> exists|k: nat| #[trigger] chain_root_ok(dbscan_spec(nb, min_pts).1, i, k),
{
    let rank = lemma_dbscan_invariants(nb, min_pts);
    let fc = dbscan_spec(nb, min_pts).0;
    let fl = dbscan_spec(nb, min_pts).1;
    assert forall|i: int| 0 <= i < nb.len() && (#[trigger] fl[i]) is Cluster implies exists|k: nat|
        #[trigger] chain_root_ok(fl, i, k) by {
        lemma_chain_terminates(nb, min_pts, fc, fl, rank, i);
        let k = choose|k: nat|
            #[trigger] chain_root_ok(fl, i, k) && (forall|j: nat|
                j <= k ==> rank[#[trigger] chain(fl, i, j)] <= rank[i]);
        assert(chain_root_ok(fl, i, k));
    }
}

/// Every cluster member is density-reachable from its cluster's root: its
/// `prev` chain ends at the self-rooted core seed of its cluster, every
/// point of the chain after the member itself is a core point of the same
/// cluster, and each chain point lies within the radius of the next.
#[verifier::rlimit(50)]
pub proof fn lemma_density_reachable(nb: Seq<Seq<usize>>, min_pts: nat)
    requires
        table_wf(nb),
        nb.len() <= u32::MAX,
    ensures
        forall|i: int|
            0 <= i < nb.len() && (#[trigger] dbscan_spec(nb, min_pts).1[i]) is Cluster
                ==> exists|k: nat|
                #[trigger] chain_root_ok(dbscan_spec(nb, min_pts).1, i, k) && (forall|j: nat|
                    1 <= j <= k ==> nb[#[trigger] chain(dbscan_spec(nb, min_pts).1, i, j)].len()
                        >= min_pts && nb[chain(dbscan_spec(nb, min_pts).1, i, j)].contains(
                        chain(dbscan_spec(nb, min_pts).1, i, (j - 1) as nat) as usize,
                    )),
{
    let rank = lemma_dbscan_invariants(nb, min_pts);
    let fc = dbscan_spec(nb, min_pts).0;
    let fl = dbscan_spec(nb, min_pts).1;
    assert forall|i: int| 0 <= i < nb.len() && (#[trigger] fl[i]) is Cluster implies exists|k: nat|
        #[trigger] chain_root_ok(fl, i, k) && (forall|j: nat|
            1 <= j <= k ==> {
                &&& nb[#[trigger] chain(fl, i, j)].len() >= min_pts
                &&& nb[chain(fl, i, j)].contains(chain(fl, i, (j - 1) as nat) as usize)
            }) by {
        lemma_chain_terminates(nb, min_pts, fc, fl, rank, i);
        let k = choose|k: nat|
            #[trigger] chain_root_ok(fl, i, k) && (forall|j: nat|
                j <= k ==> rank[#[trigger] chain(fl, i, j)] <= rank[i]);
        assert forall|j: nat| 1 <= j <= k implies {
            &&& nb[#[trigger] chain(fl, i, j)].len() >= min_pts
            &&& nb[chain(fl, i, j)].contains(chain(fl, i, (j - 1) as nat) as usize)
        } by {
            let a = chain(fl, i, (j - 1) as nat);
            let b = chain(fl, i, j);
            assert(b == prev_of(fl, a));
            assert(in_chain_ok(fl, i, (j - 1) as nat));
            assert(in_chain_ok(fl, i, j));
            // the chain has not reached the root yet, so this is no self-loop
            assert(a != b);
            assert(prev_link_ok(nb, min_pts, fl, a));
        }
        assert(chain_root_ok(fl, i, k));
    }
}

/// The cluster ids in use are exactly `0, 1, ..., cluster_count - 1`: every
/// id in a label is below the count, and every id below the count appears,
/// on a self-rooted seed.  The count never exceeds the number of points.
pub proof fn lemma_id_density(nb: Seq<Seq<usize>>, min_pts: nat)
    requires
        table_wf(nb),
        nb.len() <= u32::MAX,
    ensures
        dbscan_spec(nb, min_pts).0 <= nb.len(),
        forall|i: int|
            0 <= i < nb.len() && (#[trigger] dbscan_spec(nb, min_pts).1[i]) is Cluster
                ==> (dbscan_spec(nb, min_pts).1[i]->Cluster_id as nat) < dbscan_spec(nb, min_pts).0,
        forall|c: u32|
            (c as nat) < dbscan_spec(nb, min_pts).0 ==> #[trigger] has_seed(
                dbscan_spec(nb, min_pts).1,
                c,
            ),
{
    lemma_dbscan_invariants(nb, min_pts);
}

/// Labels every point, returning the number of clusters found and one label
/// per point.  The result is exactly what [`dbscan_spec`] computes: seeds are
/// visited in index order, and each core seed's cluster is expanded
/// depth-first, recording the discovering point in each `prev`.
pub fn dbscan_parents(neighbors: &Vec<Vec<usize>>, min_pts: usize) -> (r: (u32, Vec<Label>))
    requires
        min_pts >= 1,
        table_wf(table_view(neighbors@)),
        neighbors@.len() <= u32::MAX,
    ensures
        r.0 as nat == dbscan_spec(table_view(neighbors@), min_pts as nat).0,
        r.1@ == dbscan_spec(table_view(neighbors@), min_pts as nat).1,
{
    let ghost nb = table_view(neighbors@);
    let n = neighbors.len();
    let mut label: Vec<Label> = Vec::new();
    let mut k: usize = 0;
    while k < n
        invariant
            k <= n,
            label@.len() == k,
            forall|i: int| 0 <= i < k ==> label@[i] is Undefined,
        decreases n - k,
    {
        label.push(Label::Undefined);
        k = k + 1;
    }
    proof {
        assert(label@ =~= all_undefined(n as nat));
    }

    let ghost fin = dbscan_spec(nb, min_pts as nat);
    let mut current_cluster: u32 = 0;
    let mut point_idx: usize = 0;
    while point_idx < n
        invariant
            nb == table_view(neighbors@),
            table_wf(nb),
            nb.len() == n,
            n == neighbors@.len(),
            n <= u32::MAX,
            min_pts >= 1,
            label@.len() == n,
            point_idx <= n,
            current_cluster <= point_idx,
            run_from(nb, min_pts as nat, point_idx as int, current_cluster as nat, label@) == fin,
        decreases n - point_idx,
    {
        let ghost label_at_seed = label@;
        let seed_label = label[point_idx];
        if seed_label != Label::Undefined {
            // already labeled: the pass skips it
        } else if neighbors[point_idx].len() < min_pts {
            label[point_idx] = Label::Noise;
        } else {
            label[point_idx] = Label::Cluster { id: current_cluster, prev: point_idx };
            let ghost rooted = label@;

            let mut queue: Vec<(usize, usize)> = Vec::new();
            let mut j: usize = 0;
            while j < neighbors[point_idx].len()
                invariant
                    nb == table_view(neighbors@),
                    n == neighbors@.len(),
                    point_idx < n,
                    j <= nb[point_idx as int].len(),
                    queue@ =~= pair_with(nb[point_idx as int], point_idx).take(j as int),
                decreases nb[point_idx as int].len() - j,
            {
                queue.push((neighbors[point_idx][j], point_idx));
                j = j + 1;
            }
            proof {
                assert(queue@ =~= pair_with(nb[point_idx as int], point_idx));
                assert forall|q: int| 0 <= q < queue@.len() implies
                    (#[trigger] queue@[q]).0 < nb.len() && queue@[q].1 < nb.len() by {
                    assert(nb[point_idx as int][q] < nb.len());
                }
            }

            let ghost target = expand(nb, min_pts as nat, current_cluster, label@, queue@);
            while queue.len() > 0
                invariant
                    nb == table_view(neighbors@),
                    table_wf(nb),
                    nb.len() == n,
                    n == neighbors@.len(),
                    min_pts >= 1,
                    label@.len() == n,
                    queue_wf(nb, queue@),
                    expand(nb, min_pts as nat, current_cluster, label@, queue@) == target,
                decreases undef_count(label@), queue@.len(),
            {
                let ghost label_before = label@;
                let ghost queue_before = queue@;
                let pair = queue.pop().unwrap();
                let c = pair.0;
                let p = pair.1;
                proof {
                    assert(queue_before[queue_before.len() - 1] == pair);
                    assert(queue@ =~= queue_before.drop_last());
                }
                let candidate_label = label[c];
                if candidate_label == Label::Noise {
                    proof {
                        lemma_undef_count_update(
                            label_before,
                            c as int,
                            Label::Cluster { id: current_cluster, prev: p },
                        );
                    }
                    label[c] = Label::Cluster { id: current_cluster, prev: p };
                } else if candidate_label != Label::Undefined {
                    // already a cluster member: no relabeling
                } else {
                    proof {
                        lemma_undef_count_update(
                            label_before,
                            c as int,
                            Label::Cluster { id: current_cluster, prev: p },
                        );
                    }
                    label[c] = Label::Cluster { id: current_cluster, prev: p };
                    if neighbors[c].len() >= min_pts {
                        let ghost queue_mid = queue@;
                        let mut j2: usize = 0;
                        while j2 < neighbors[c].len()
                            invariant
                                nb == table_view(neighbors@),
                                n == neighbors@.len(),
                                c < n,
                                j2 <= nb[c as int].len(),
                                queue@ =~= queue_mid + pair_with(nb[c as int], c).take(j2 as int),
                            decreases nb[c as int].len() - j2,
                        {
                            queue.push((neighbors[c][j2], c));
                            j2 = j2 + 1;
                        }
                        proof {
                            assert(queue@ =~= queue_mid + pair_with(nb[c as int], c));
                            assert forall|q: int| 0 <= q < queue@.len() implies
                                (#[trigger] queue@[q]).0 < nb.len() && queue@[q].1 < nb.len() by {
                                if q >= queue_mid.len() {
                                    assert(nb[c as int][q - queue_mid.len()] < nb.len());
                                }
                            }
                        }
                    }
                }
            }
            proof {
                assert(label@ == target);
                assert(run_from(nb, min_pts as nat, point_idx as int, current_cluster as nat,
                    label_at_seed) == run_from(nb, min_pts as nat, point_idx + 1,
                    current_cluster as nat + 1, label@));
            }
            current_cluster = current_cluster + 1;
        }
        point_idx = point_idx + 1;
    }
    (current_cluster, label)
}

/// Labels every point after validating the configuration: rejects a zero
/// `min_pts`, a point count that cluster ids cannot number, and a neighbor
/// table with an out-of-range index; otherwise returns exactly what
/// [`dbscan_parents`] returns.
pub fn label_clusters(neighbors: &Vec<Vec<usize>>, min_pts: usize) -> (r: Result<
    (u32, Vec<Label>),
    ConfigError,
>)
    ensures
        min_pts == 0 ==> r == Err::<(u32, Vec<Label>), ConfigError>(ConfigError::MinPtsZero),
        min_pts >= 1 && neighbors@.len() > u32::MAX ==> r == Err::<
            (u32, Vec<Label>),
            ConfigError,
        >(ConfigError::TooManyPoints),
        min_pts >= 1 && neighbors@.len() <= u32::MAX && !table_wf(table_view(neighbors@)) ==> r
            == Err::<(u32, Vec<Label>), ConfigError>(ConfigError::NeighborIndexOutOfRange),
        min_pts >= 1 && neighbors@.len() <= u32::MAX && table_wf(table_view(neighbors@)) ==> {
            &&& r is Ok
            &&& r->Ok_0.0 as nat == dbscan_spec(table_view(neighbors@), min_pts as nat).0
            &&& r->Ok_0.1@ == dbscan_spec(table_view(neighbors@), min_pts as nat).1
        },
{
    if min_pts == 0 {
        Err(ConfigError::MinPtsZero)
    } else if neighbors.len() > u32::MAX as usize {
        Err(ConfigError::TooManyPoints)
    } else if !check_neighbor_table(neighbors) {
        Err(ConfigError::NeighborIndexOutOfRange)
    } else {
        Ok(dbscan_parents(neighbors, min_pts))
    }
}

/// The expansion-tree edges a labeling induces: one `(point, prev)` pair per
/// cluster member, in index order (a cluster root contributes the degenerate
/// pair `(root, root)`).
pub open spec fn edges_of(labels: Seq<Label>) -> Seq<(usize, usize)>
    decreases labels.len(),
{
    if labels.len() == 0 {
        Seq::empty()
    } else {
        edges_of(labels.drop_last()) + if labels.last() is Cluster {
            seq![((labels.len() - 1) as usize, labels.last()->Cluster_prev)]
        } else {
            Seq::empty()
        }
    }
}

/// Collects the expansion-tree edges of a labeling: each cluster member
/// paired with the point that discovered it, for drawing one line segment
/// per pair.
pub fn cluster_edges(labels: &Vec<Label>) -> (r: Vec<(usize, usize)>)
    ensures
        r@ == edges_of(labels@),
{
    let mut out: Vec<(usize, usize)> = Vec::new();
    let mut i: usize = 0;
    while i < labels.len()
        invariant
            i <= labels@.len(),
            out@ == edges_of(labels@.take(i as int)),
        decreases labels@.len() - i,
    {
        proof {
            assert(labels@.take(i + 1).drop_last() =~= labels@.take(i as int));
            assert(labels@.take(i + 1).last() == labels@[i as int]);
        }
        match labels[i] {
            Label::Cluster { id: _, prev } => {
                out.push((i, prev));
                proof {
                    assert(out@ =~= edges_of(labels@.take(i + 1)));
                }
            },
            _ => {
                proof {
                    assert(out@ =~= edges_of(labels@.take(i + 1)));
                }
            },
        }
        i = i + 1;
    }
    proof {
        assert(labels@.take(labels@.len() as int) =~= labels@);
    }
    out
}

} // verus!
