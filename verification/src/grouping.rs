//! K-means clustering of tile feature vectors into palette groups, in
//! exact fixed-point arithmetic: features are scaled by 256, centroids
//! are rounded fixed-point means, distances are exact squared Euclidean
//! distances. Assignment and centroid recomputation are separate pure
//! functions driven by a capped iteration loop with an early exit once
//! the assignment stabilizes.

use vstd::prelude::*;

use crate::color_distribution::{dist_at, ColorDistribution};
use crate::histogram::avg_round;

verus! {

/// A centroid is six fixed-point coordinates, each at most 255 * 256.
pub open spec fn is_centroid(c: Seq<u64>) -> bool {
    c.len() == 6 && forall|i: int| 0 <= i < 6 ==> c[i] <= 65280
}

/// Every centroid of the list is well-formed.
pub open spec fn are_centroids(cs: Seq<Seq<u64>>) -> bool {
    forall|g: int| 0 <= g < cs.len() ==> is_centroid(#[trigger] cs[g])
}

/// Squared Euclidean distance between a feature vector (scaled by 256)
/// and a centroid, over the first `k` dimensions.
pub open spec fn sq_dist_upto(d: ColorDistribution, c: Seq<u64>, k: int) -> int
    decreases k,
{
    if k <= 0 {
        0
    } else {
        sq_dist_upto(d, c, k - 1) + (256 * dist_at(d, k - 1) - c[k - 1]) * (256 * dist_at(d, k - 1)
            - c[k - 1])
    }
}

/// Squared Euclidean distance over all six dimensions.
pub open spec fn sq_dist(d: ColorDistribution, c: Seq<u64>) -> int {
    sq_dist_upto(d, c, 6)
}

/// Index of the centroid nearest to the feature vector, the lowest index
/// winning ties.
pub open spec fn nearest_centroid(d: ColorDistribution, cs: Seq<Seq<u64>>) -> int
    decreases cs.len(),
{
    if cs.len() <= 1 {
        0
    } else {
        let k = nearest_centroid(d, cs.drop_last());
        if sq_dist(d, cs.last()) < sq_dist(d, cs[k]) {
            cs.len() - 1
        } else {
            k
        }
    }
}

/// The nearest centroid index is in range, no centroid is strictly
/// closer, and every earlier index is strictly farther.
pub proof fn lemma_nearest_centroid_properties(d: ColorDistribution, cs: Seq<Seq<u64>>)
    requires
        cs.len() >= 1,
    ensures
        0 <= nearest_centroid(d, cs) < cs.len(),
        forall|g: int|
            0 <= g < cs.len() ==> sq_dist(d, cs[nearest_centroid(d, cs)]) <= sq_dist(
                d,
                #[trigger] cs[g],
            ),
        forall|g: int|
            0 <= g < nearest_centroid(d, cs) ==> sq_dist(d, cs[nearest_centroid(d, cs)]) < sq_dist(
                d,
                #[trigger] cs[g],
            ),
    decreases cs.len(),
{
    if cs.len() > 1 {
        lemma_nearest_centroid_properties(d, cs.drop_last());
        assert(forall|g: int| 0 <= g < cs.len() - 1 ==> cs.drop_last()[g] == #[trigger] cs[g]);
    }
}

/// Number of elements assigned to group `g`.
pub open spec fn cluster_count(m: Seq<usize>, g: int) -> nat
    decreases m.len(),
{
    if m.len() == 0 {
        0
    } else {
        cluster_count(m.drop_last(), g) + if m.last() == g {
            1nat
        } else {
            0nat
        }
    }
}

/// Sum of one (256-scaled) feature dimension over the elements assigned
/// to group `g`.
pub open spec fn cluster_dim_sum(
    elems: Seq<ColorDistribution>,
    m: Seq<usize>,
    g: int,
    dim: int,
) -> nat
    decreases m.len(),
{
    if m.len() == 0 {
        0
    } else {
        cluster_dim_sum(elems, m.drop_last(), g, dim) + if m.last() == g {
            256 * dist_at(elems[m.len() - 1], dim) as nat
        } else {
            0nat
        }
    }
}

/// A cluster's scaled feature sum is bounded by its size times the
/// largest scaled feature value.
proof fn lemma_cluster_sum_le(elems: Seq<ColorDistribution>, m: Seq<usize>, g: int, dim: int)
    ensures
        cluster_dim_sum(elems, m, g, dim) <= 65280 * cluster_count(m, g),
    decreases m.len(),
{
    if m.len() > 0 {
        lemma_cluster_sum_le(elems, m.drop_last(), g, dim);
    }
}

/// Squared Euclidean distance between a feature vector and a centroid.
#[verifier::loop_isolation(false)]
fn sq_distance(d: &ColorDistribution, c: &Vec<u64>) -> (r: u64)
    requires
        is_centroid(c@),
    ensures
        r == sq_dist(*d, c@),
{
    let mut r: u64 = 0;
    let mut k: usize = 0;
    while k < 6
        invariant
            k <= 6,
            r == sq_dist_upto(*d, c@, k as int),
            r <= 4261478400 * (k as int),
        decreases 6 - k,
    {
        let f = 256 * (d.at(k) as u64);
        let ck = c[k];
        let diff = if f >= ck {
            f - ck
        } else {
            ck - f
        };
        proof {
            let a = 256 * dist_at(*d, k as int) as int;
            let b = c@[k as int] as int;
            assert((diff as int) * (diff as int) == (a - b) * (a - b)) by (nonlinear_arith)
                requires
                    diff == if a >= b {
                        a - b
                    } else {
                        b - a
                    },
            ;
            assert((diff as int) * (diff as int) <= 65280 * 65280) by (nonlinear_arith)
                requires
                    0 <= diff <= 65280,
            ;
        }
        r = r + diff * diff;
        k += 1;
    }
    r
}

/// Assigns every element to its nearest centroid.
#[verifier::loop_isolation(false)]
fn assign(elems: &Vec<ColorDistribution>, centroids: &Vec<Vec<u64>>) -> (m: Vec<usize>)
    requires
        1 <= centroids@.len(),
        are_centroids(centroids@.map_values(|c: Vec<u64>| c@)),
    ensures
        m@.len() == elems@.len(),
        forall|i: int|
            0 <= i < m@.len() ==> m@[i] == nearest_centroid(
                elems@[i],
                centroids@.map_values(|c: Vec<u64>| c@),
            ) && #[trigger] m@[i] < centroids@.len(),
{
    let ghost cs = centroids@.map_values(|c: Vec<u64>| c@);
    proof {
        assert forall|u: int| 0 <= u < centroids@.len() implies is_centroid(
            (#[trigger] centroids@[u])@,
        ) && cs[u] == centroids@[u]@ by {
            assert(is_centroid(cs[u]));
        }
    }
    let mut m: Vec<usize> = Vec::new();
    let mut i: usize = 0;
    while i < elems.len()
        invariant
            i <= elems@.len(),
            m@.len() == i,
            forall|j: int|
                0 <= j < i ==> m@[j] == nearest_centroid(elems@[j], cs) && #[trigger] m@[j]
                    < cs.len(),
        decreases elems@.len() - i,
    {
        let d = elems[i];
        let mut best: usize = 0;
        let mut best_dist = sq_distance(&d, &centroids[0]);
        let mut g: usize = 1;
        while g < centroids.len()
            invariant
                1 <= g <= cs.len(),
                best < g,
                best == nearest_centroid(d, cs.take(g as int)),
                best_dist == sq_dist(d, cs[best as int]),
            decreases cs.len() - g,
        {
            proof {
                assert(cs.take(g + 1).drop_last() =~= cs.take(g as int));
                assert(forall|j: int|
                    0 <= j < g ==> cs.take(g as int)[j] == #[trigger] cs.take(g + 1)[j]);
                assert(cs.take(g + 1).last() == cs[g as int]);
            }
            let dist = sq_distance(&d, &centroids[g]);
            if dist < best_dist {
                best_dist = dist;
                best = g;
            }
            g += 1;
        }
        proof {
            assert(cs.take(cs.len() as int) =~= cs);
            lemma_nearest_centroid_properties(d, cs);
        }
        m.push(best);
        i += 1;
    }
    m
}

/// Number of elements assigned to one group.
#[verifier::loop_isolation(false)]
fn cluster_size(membership: &Vec<usize>, g: usize) -> (n: usize)
    ensures
        n == cluster_count(membership@, g as int),
{
    let ghost ms = membership@;
    let mut n: usize = 0;
    let mut i: usize = 0;
    while i < membership.len()
        invariant
            i <= ms.len(),
            n == cluster_count(ms.take(i as int), g as int),
            n <= i,
        decreases ms.len() - i,
    {
        proof {
            assert(ms.take(i + 1).drop_last() =~= ms.take(i as int));
        }
        if membership[i] == g {
            n = n + 1;
        }
        i += 1;
    }
    proof {
        assert(ms.take(ms.len() as int) =~= ms);
    }
    n
}

/// Sum of one scaled feature dimension over the elements of one group.
#[verifier::loop_isolation(false)]
fn cluster_sum(
    elems: &Vec<ColorDistribution>,
    membership: &Vec<usize>,
    g: usize,
    dim: usize,
) -> (s: u128)
    requires
        membership@.len() == elems@.len(),
        dim < 6,
    ensures
        s == cluster_dim_sum(elems@, membership@, g as int, dim as int),
{
    let ghost ms = membership@;
    let mut s: u128 = 0;
    let mut i: usize = 0;
    while i < membership.len()
        invariant
            i <= ms.len(),
            s == cluster_dim_sum(elems@, ms.take(i as int), g as int, dim as int),
            s <= 65280 * (i as int),
        decreases ms.len() - i,
    {
        proof {
            assert(ms.take(i + 1).drop_last() =~= ms.take(i as int));
            assert(ms.take(i + 1).len() - 1 == i);
        }
        if membership[i] == g {
            s = s + 256 * (elems[i].at(dim) as u128);
        }
        i += 1;
    }
    proof {
        assert(ms.take(ms.len() as int) =~= ms);
    }
    s
}

/// Recomputes every centroid as the rounded fixed-point mean of its
/// assigned elements; a group with no elements keeps its previous
/// centroid.
#[verifier::loop_isolation(false)]
fn recompute(
    elems: &Vec<ColorDistribution>,
    membership: &Vec<usize>,
    old_centroids: &Vec<Vec<u64>>,
) -> (cs: Vec<Vec<u64>>)
    requires
        membership@.len() == elems@.len(),
        are_centroids(old_centroids@.map_values(|c: Vec<u64>| c@)),
    ensures
        cs@.len() == old_centroids@.len(),
        are_centroids(cs@.map_values(|c: Vec<u64>| c@)),
        forall|g: int|
            0 <= g < cs@.len() && cluster_count(membership@, g) == 0 ==> (#[trigger] cs@[g])@
                == old_centroids@[g]@,
        forall|g: int, dim: int|
            0 <= g < cs@.len() && 0 <= dim < 6 && cluster_count(membership@, g) > 0
                ==> (#[trigger] cs@[g])@[dim] == avg_round(
                #[trigger] cluster_dim_sum(elems@, membership@, g, dim) as int,
                cluster_count(membership@, g) as int,
            ),
{
    let ghost ocs = old_centroids@.map_values(|c: Vec<u64>| c@);
    let mut cs: Vec<Vec<u64>> = Vec::new();
    let mut g: usize = 0;
    while g < old_centroids.len()
        invariant
            g <= old_centroids@.len(),
            cs@.len() == g,
            forall|u: int| 0 <= u < g ==> is_centroid((#[trigger] cs@[u])@),
            forall|u: int|
                0 <= u < g && cluster_count(membership@, u) == 0 ==> (#[trigger] cs@[u])@
                    == old_centroids@[u]@,
            forall|u: int, dim: int|
                0 <= u < g && 0 <= dim < 6 && cluster_count(membership@, u) > 0
                    ==> (#[trigger] cs@[u])@[dim] == avg_round(
                    #[trigger] cluster_dim_sum(elems@, membership@, u, dim) as int,
                    cluster_count(membership@, u) as int,
                ),
        decreases old_centroids@.len() - g,
    {
        let cnt = cluster_size(membership, g);
        let mut row: Vec<u64> = Vec::new();
        if cnt == 0 {
            let mut dim: usize = 0;
            while dim < 6
                invariant
                    dim <= 6,
                    row@.len() == dim,
                    g < old_centroids@.len(),
                    forall|j: int| 0 <= j < dim ==> row@[j] == old_centroids@[g as int]@[j],
                decreases 6 - dim,
            {
                proof {
                    assert(is_centroid(ocs[g as int]));
                    assert(ocs[g as int] == old_centroids@[g as int]@);
                }
                row.push(old_centroids[g][dim]);
                dim += 1;
            }
            proof {
                assert(is_centroid(ocs[g as int]));
                assert(ocs[g as int] == old_centroids@[g as int]@);
                assert(row@ =~= old_centroids@[g as int]@);
                assert(is_centroid(row@));
            }
        } else {
            let mut dim: usize = 0;
            while dim < 6
                invariant
                    dim <= 6,
                    row@.len() == dim,
                    g < old_centroids@.len(),
                    cnt == cluster_count(membership@, g as int),
                    cnt >= 1,
                    membership@.len() == elems@.len(),
                    forall|j: int|
                        0 <= j < dim ==> row@[j] == avg_round(
                            cluster_dim_sum(elems@, membership@, g as int, j) as int,
                            cnt as int,
                        ) && row@[j] <= 65280,
                decreases 6 - dim,
            {
                let s = cluster_sum(elems, membership, g, dim);
                proof {
                    lemma_cluster_sum_le(elems@, membership@, g as int, dim as int);
                    crate::histogram::lemma_avg_round_bounds(s as int, cnt as int, 0, 65280);
                }
                let v = ((2 * s + (cnt as u128)) / (2 * (cnt as u128))) as u64;
                row.push(v);
                dim += 1;
            }
            proof {
                assert(is_centroid(row@));
            }
        }
        cs.push(row);
        g += 1;
    }
    proof {
        let mapped = cs@.map_values(|c: Vec<u64>| c@);
        assert forall|u: int| 0 <= u < mapped.len() implies is_centroid(#[trigger] mapped[u]) by {
            assert(mapped[u] == cs@[u]@);
        }
    }
    cs
}

/// Every element is assigned to the centroid of `cs` nearest to it.
pub open spec fn assigned_to_nearest(
    membership: Seq<usize>,
    elems: Seq<ColorDistribution>,
    cs: Seq<Seq<u64>>,
) -> bool {
    &&& cs.len() >= 1
    &&& membership.len() == elems.len()
    &&& (forall|i: int|
        0 <= i < membership.len() ==> #[trigger] membership[i] == nearest_centroid(elems[i], cs))
}

/// The initial centroids: the scaled feature vectors of the first
/// elements, one per requested group as far as elements exist.
pub open spec fn init_centroids(elems: Seq<ColorDistribution>, k: int) -> Seq<Seq<u64>> {
    let n = if elems.len() < k {
        elems.len() as int
    } else {
        k
    };
    Seq::new(n as nat, |g: int| Seq::new(6, |d: int| (256 * dist_at(elems[g], d)) as u64))
}

/// One assignment pass: every element goes to its nearest centroid.
pub open spec fn assign_spec(elems: Seq<ColorDistribution>, cs: Seq<Seq<u64>>) -> Seq<usize> {
    Seq::new(elems.len(), |i: int| nearest_centroid(elems[i], cs) as usize)
}

/// One recomputation pass: every group with elements gets the rounded
/// fixed-point mean of its elements as its new centroid; a group with no
/// elements keeps its previous one.
pub open spec fn recompute_spec(
    elems: Seq<ColorDistribution>,
    m: Seq<usize>,
    cs: Seq<Seq<u64>>,
) -> Seq<Seq<u64>> {
    Seq::new(
        cs.len(),
        |g: int|
            if cluster_count(m, g) == 0 {
                cs[g]
            } else {
                Seq::new(
                    6,
                    |d: int|
                        avg_round(
                            cluster_dim_sum(elems, m, g, d) as int,
                            cluster_count(m, g) as int,
                        ) as u64,
                )
            },
    )
}

/// The driving loop: recompute centroids and reassign, stopping early
/// once the assignment repeats, for at most `iters` more rounds.
pub open spec fn kmeans_steps(
    elems: Seq<ColorDistribution>,
    cs: Seq<Seq<u64>>,
    m: Seq<usize>,
    iters: nat,
) -> Seq<usize>
    decreases iters,
{
    if iters == 0 {
        m
    } else {
        let cs2 = recompute_spec(elems, m, cs);
        let m2 = assign_spec(elems, cs2);
        if m2 == m {
            m2
        } else {
            kmeans_steps(elems, cs2, m2, (iters - 1) as nat)
        }
    }
}

/// The whole clustering, as a function of the elements, the group budget
/// and the iteration cap.
pub open spec fn kmeans_spec(elems: Seq<ColorDistribution>, k: int, max_iter: int) -> Seq<usize> {
    if elems.len() == 0 {
        Seq::empty()
    } else {
        let cs0 = init_centroids(elems, k);
        kmeans_steps(elems, cs0, assign_spec(elems, cs0), max_iter as nat)
    }
}

/// Compares two assignments element by element.
#[verifier::loop_isolation(false)]
fn same_assignment(a: &Vec<usize>, b: &Vec<usize>) -> (r: bool)
    ensures
        r <==> a@ =~= b@,
{
    if a.len() != b.len() {
        return false;
    }
    let mut i: usize = 0;
    while i < a.len()
        invariant
            i <= a@.len(),
            a@.len() == b@.len(),
            forall|j: int| 0 <= j < i ==> a@[j] == b@[j],
        decreases a@.len() - i,
    {
        if a[i] != b[i] {
            return false;
        }
        i += 1;
    }
    true
}

/// Clusters the feature vectors into at most `k` groups by k-means:
/// centroids start at the first `k` distinct positions of the element
/// list, then assignment and centroid recomputation alternate until the
/// assignment stabilizes or the iteration cap is reached. The result is
/// exactly the `kmeans_spec` iteration applied to the inputs: every
/// element receives the group of the centroid nearest to it in the
/// final centroid list, always below `k`.
#[verifier::loop_isolation(false)]
pub fn kmeans(k: usize, elems: &Vec<ColorDistribution>, max_iter: usize) -> (membership: Vec<
    usize,
>)
    requires
        k >= 1,
    ensures
        membership@.len() == elems@.len(),
        forall|i: int| 0 <= i < membership@.len() ==> #[trigger] membership@[i] < k,
        exists|cs: Seq<Seq<u64>>| #[trigger] assigned_to_nearest(membership@, elems@, cs),
        membership@ == kmeans_spec(elems@, k as int, max_iter as int),
{
    if elems.len() == 0 {
        let empty: Vec<usize> = Vec::new();
        proof {
            let ghost cs0: Seq<Seq<u64>> = Seq::new(1, |g: int| Seq::new(6, |d: int| 0u64));
            assert(assigned_to_nearest(empty@, elems@, cs0));
            assert(empty@ =~= kmeans_spec(elems@, k as int, max_iter as int));
        }
        return empty;
    }
    // initial centroids: the scaled features of the first elements
    let n_centroids = if elems.len() < k {
        elems.len()
    } else {
        k
    };
    let mut centroids: Vec<Vec<u64>> = Vec::new();
    let mut g: usize = 0;
    while g < n_centroids
        invariant
            g <= n_centroids,
            n_centroids <= elems@.len(),
            n_centroids <= k,
            n_centroids == init_centroids(elems@, k as int).len(),
            centroids@.len() == g,
            forall|u: int| 0 <= u < g ==> is_centroid((#[trigger] centroids@[u])@),
            forall|u: int|
                0 <= u < g ==> (#[trigger] centroids@[u])@ == init_centroids(elems@, k as int)[u],
        decreases n_centroids - g,
    {
        let mut row: Vec<u64> = Vec::new();
        let mut dim: usize = 0;
        while dim < 6
            invariant
                dim <= 6,
                g < elems@.len(),
                row@.len() == dim,
                forall|j: int|
                    0 <= j < dim ==> #[trigger] row@[j] == 256 * dist_at(elems@[g as int], j),
        decreases 6 - dim,
        {
            row.push(256 * (elems[g].at(dim) as u64));
            dim += 1;
        }
        proof {
            assert(is_centroid(row@));
            assert(row@ =~= init_centroids(elems@, k as int)[g as int]);
        }
        centroids.push(row);
        g += 1;
    }
    let ghost cs0 = init_centroids(elems@, k as int);
    proof {
        let mapped = centroids@.map_values(|c: Vec<u64>| c@);
        assert forall|u: int| 0 <= u < mapped.len() implies is_centroid(#[trigger] mapped[u])
            && mapped[u] == cs0[u] by {
            assert(mapped[u] == centroids@[u]@);
        }
        assert(mapped =~= cs0);
    }
    let mut membership = assign(elems, &centroids);
    proof {
        assert(membership@ =~= assign_spec(elems@, cs0));
    }
    let mut it: usize = 0;
    while it < max_iter
        invariant
            it <= max_iter,
            membership@.len() == elems@.len(),
            centroids@.len() == n_centroids,
            1 <= n_centroids <= k,
            are_centroids(centroids@.map_values(|c: Vec<u64>| c@)),
            forall|i: int| 0 <= i < membership@.len() ==> #[trigger] membership@[i] < n_centroids,
            assigned_to_nearest(membership@, elems@, centroids@.map_values(|c: Vec<u64>| c@)),
            kmeans_steps(
                elems@,
                centroids@.map_values(|c: Vec<u64>| c@),
                membership@,
                (max_iter - it) as nat,
            ) == kmeans_spec(elems@, k as int, max_iter as int),
        decreases max_iter - it,
    {
        let ghost csm = centroids@.map_values(|c: Vec<u64>| c@);
        let ghost m_old = membership@;
        let new_centroids = recompute(elems, &membership, &centroids);
        proof {
            // the recomputation is exactly the specification's pass
            let newm = new_centroids@.map_values(|c: Vec<u64>| c@);
            let specm = recompute_spec(elems@, m_old, csm);
            assert forall|g2: int| 0 <= g2 < newm.len() implies #[trigger] newm[g2]
                == specm[g2] by {
                assert(newm[g2] == new_centroids@[g2]@);
                if cluster_count(m_old, g2) == 0 {
                    assert(new_centroids@[g2]@ == centroids@[g2]@);
                    assert(csm[g2] == centroids@[g2]@);
                } else {
                    assert forall|d: int| 0 <= d < 6 implies new_centroids@[g2]@[d] == avg_round(
                        #[trigger] cluster_dim_sum(elems@, m_old, g2, d) as int,
                        cluster_count(m_old, g2) as int,
                    ) by {}
                    assert(new_centroids@[g2]@ =~= specm[g2]);
                }
            }
            assert(newm =~= specm);
        }
        centroids = new_centroids;
        let next = assign(elems, &centroids);
        proof {
            assert(next@ =~= assign_spec(elems@, centroids@.map_values(|c: Vec<u64>| c@)));
        }
        let stable = same_assignment(&next, &membership);
        membership = next;
        proof {
            // one unfolding of the specification's driving loop
            let left = (max_iter - it) as nat;
            let cs2 = recompute_spec(elems@, m_old, csm);
            let m2 = assign_spec(elems@, cs2);
            assert(membership@ == m2);
            if stable {
                assert(m2 == m_old);
                assert(kmeans_steps(elems@, csm, m_old, left) == m2);
            } else {
                assert(m2 != m_old);
                assert(kmeans_steps(elems@, csm, m_old, left) == kmeans_steps(
                    elems@,
                    cs2,
                    m2,
                    (left - 1) as nat,
                ));
            }
        }
        if stable {
            proof {
                assert(assigned_to_nearest(
                    membership@,
                    elems@,
                    centroids@.map_values(|c: Vec<u64>| c@),
                ));
            }
            return membership;
        }
        it += 1;
    }
    proof {
        assert(kmeans_steps(
            elems@,
            centroids@.map_values(|c: Vec<u64>| c@),
            membership@,
            0,
        ) == membership@);
    }
    membership
}

} // verus!
