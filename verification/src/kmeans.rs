//! The k-means clustering engine.
//!
//! [`Context::k_means`] partitions a sequence of color points into `k`
//! groups: it seeds `k` initial centers by drawing distinct points with the
//! context's deterministic generator, then for a fixed number of iterations
//! assigns every point to its nearest center (ties to the lowest index) and
//! replaces each center by the mean of its assigned points, keeping the old
//! center where a group received no points.  The whole computation is
//! specified as a function of the inputs and the seed, so results are
//! reproducible bit for bit.

use vstd::prelude::*;

use crate::colors::{
    chan_diff, compat, lemma_mean_of_single, lemma_norm2_nonneg, lemma_sq_dist_range,
    lemma_sq_dist_symm, lemma_sq_dist_zero_iff_equal, lemma_triangle_prune, sq_dist, sum_add,
    sum_mean, sum_zero, Color, ColorKind, ColorView,
};
use crate::rng::{spec_sample, SeededRng};

verus! {

/// Rejected engine configurations.
#[derive(Clone, Copy, Debug, PartialEq, Eq, Structural)]
pub enum KmeansError {
    /// The requested cluster count is zero.
    KZero,
    /// The requested cluster count exceeds the number of points.
    KTooLarge,
}

/// Capability contract for types that can be clustered by k-means: a zero
/// accumulator, a pairwise distance, accumulation of a point, and a mean of
/// an accumulator and a count.  Each operation carries its mathematical
/// model, stated over the views of the values.
pub trait Kmeansable: Sized + View {
    /// Accumulator for summation during mean calculation.
    type Sum: View;

    /// Model of the accumulator zero.
    spec fn szero() -> <Self::Sum as View>::V;

    /// Model of accumulating one point into an accumulator.
    spec fn sadd(s: <Self::Sum as View>::V, p: Self::V) -> <Self::Sum as View>::V;

    /// Model of the mean of an accumulator over `n` points.
    spec fn sdiv(s: <Self::Sum as View>::V, n: nat) -> Self::V;

    /// Model of the distance between two points.
    spec fn sdist(a: Self::V, b: Self::V) -> int;

    /// When two points may be compared.
    spec fn dist_pre(a: Self::V, b: Self::V) -> bool;

    /// When a point may be accumulated without overflow.
    spec fn add_pre(s: <Self::Sum as View>::V, p: Self::V) -> bool;

    /// When a mean may be taken of an accumulator.
    spec fn div_pre(s: <Self::Sum as View>::V, n: nat) -> bool;

    /// Initial value for sums.
    fn zero() -> (r: Self::Sum)
        ensures
            r@ == Self::szero(),
    ;

    /// Distance according to which clustering is performed.
    fn distance(&self, other: &Self) -> (r: u64)
        requires
            Self::dist_pre(self@, other@),
        ensures
            r as int == Self::sdist(self@, other@),
    ;

    /// Summation for mean calculation.
    fn add(s: &Self::Sum, p: &Self) -> (r: Self::Sum)
        requires
            Self::add_pre(s@, p@),
        ensures
            r@ == Self::sadd(s@, p@),
    ;

    /// Division for mean calculation.
    fn div(s: &Self::Sum, count: usize) -> (r: Self)
        requires
            count >= 1,
            Self::div_pre(s@, count as nat),
        ensures
            r@ == Self::sdiv(s@, count as nat),
    ;

    /// An equal copy of the point.
    fn duplicate(&self) -> (r: Self)
        ensures
            r@ == self@,
    ;
}

/// The views of a sequence of colors.
pub open spec fn views_of(s: Seq<Color>) -> Seq<ColorView> {
    s.map_values(|c: Color| c@)
}

/// Assignment indices as mathematical integers.
pub open spec fn asg_ints(v: Seq<usize>) -> Seq<int> {
    v.map_values(|x: usize| x as int)
}

/// Every color in the sequence is well formed and shares one layout.
pub open spec fn uniform(data: Seq<ColorView>) -> bool {
    forall|i: int|
        0 <= i < data.len() ==> (#[trigger] data[i]).wf() && data[i].color_type
            == data[0].color_type
}

/// Every point of `data` can be compared with every center of `cs`.
pub open spec fn all_compat(data: Seq<ColorView>, cs: Seq<ColorView>) -> bool {
    forall|i: int, j: int|
        0 <= i < data.len() && 0 <= j < cs.len() ==> compat(#[trigger] data[i], #[trigger] cs[j])
}

/// Index of the center nearest to `p` among the first `j` centers, ties
/// broken toward the lowest index (the first strict improvement wins).
pub open spec fn nearest_upto(p: ColorView, cs: Seq<ColorView>, j: int) -> int
    decreases j,
{
    if j <= 1 {
        0
    } else {
        let prev = nearest_upto(p, cs, j - 1);
        if sq_dist(p, cs[j - 1]) < sq_dist(p, cs[prev]) {
            j - 1
        } else {
            prev
        }
    }
}

/// One assignment pass: each point's nearest center index.
pub open spec fn spec_assign(data: Seq<ColorView>, cs: Seq<ColorView>) -> Seq<int> {
    Seq::new(data.len(), |i: int| nearest_upto(data[i], cs, cs.len() as int))
}

/// How many points each of the `k` clusters received.
pub open spec fn spec_counts(asg: Seq<int>, k: nat) -> Seq<int>
    decreases asg.len(),
{
    if asg.len() == 0 {
        Seq::new(k, |c: int| 0)
    } else {
        let prev = spec_counts(asg.drop_last(), k);
        prev.update(asg.last(), prev[asg.last()] + 1)
    }
}

/// The accumulated channel sums of each of the `k` clusters.
pub open spec fn spec_sums(data: Seq<ColorView>, asg: Seq<int>, k: nat) -> Seq<Seq<u64>>
    decreases data.len(),
{
    if data.len() == 0 {
        Seq::new(k, |c: int| sum_zero())
    } else {
        let prev = spec_sums(data.drop_last(), asg.drop_last(), k);
        prev.update(asg.last(), sum_add(prev[asg.last()], data.last()))
    }
}

/// One update pass: each center moves to the mean of its assigned points; a
/// center whose cluster received no points keeps its previous value.
pub open spec fn spec_update(data: Seq<ColorView>, asg: Seq<int>, cs: Seq<ColorView>) -> Seq<
    ColorView,
> {
    let counts = spec_counts(asg, cs.len());
    let sums = spec_sums(data, asg, cs.len());
    Seq::new(
        cs.len(),
        |c: int|
            if counts[c] == 0 {
                cs[c]
            } else {
                sum_mean(sums[c], counts[c] as nat)
            },
    )
}

/// Degenerate-cluster stability: a cluster that received no points in an
/// update pass keeps its previous center untouched, so no center is ever
/// lost and no division by zero can arise.
pub proof fn lemma_empty_cluster_keeps_center(
    data: Seq<ColorView>,
    asg: Seq<int>,
    cs: Seq<ColorView>,
    c: int,
)
    requires
        0 <= c < cs.len(),
        spec_counts(asg, cs.len())[c] == 0,
    ensures
        spec_update(data, asg, cs)[c] == cs[c],
{
}

/// `n` full iterations of assignment and update, starting from centers `cs`
/// and the assignment vector `asg`; returns the final centers and the
/// assignments of the last completed assignment pass.
pub open spec fn spec_run(data: Seq<ColorView>, cs: Seq<ColorView>, asg: Seq<int>, n: nat) -> (
    Seq<ColorView>,
    Seq<int>,
)
    decreases n,
{
    if n == 0 {
        (cs, asg)
    } else {
        let a2 = spec_assign(data, cs);
        let c2 = spec_update(data, a2, cs);
        spec_run(data, c2, a2, (n - 1) as nat)
    }
}

/// Largest accepted number of input points: keeps every 64-bit channel sum
/// far from overflow (each accumulation adds at most 255).
pub const MAX_POINTS: usize = 0xFFFF_FFFF;

/// Every center is well formed and has the layout of the input points.
pub open spec fn centers_ok(dv: Seq<ColorView>, cs: Seq<ColorView>) -> bool {
    forall|j: int|
        0 <= j < cs.len() ==> (#[trigger] cs[j]).wf() && cs[j].color_type == dv[0].color_type
}

/// The nearest-center index is in range, no center is strictly closer, and
/// every center with a lower index is strictly farther.
pub proof fn lemma_nearest_is_min(p: ColorView, cs: Seq<ColorView>, j: int)
    requires
        1 <= j <= cs.len(),
    ensures
        0 <= nearest_upto(p, cs, j) < j,
        forall|t: int|
            0 <= t < j ==> sq_dist(p, cs[nearest_upto(p, cs, j)]) <= sq_dist(p, #[trigger] cs[t]),
        forall|t: int|
            0 <= t < nearest_upto(p, cs, j) ==> sq_dist(p, #[trigger] cs[t]) > sq_dist(
                p,
                cs[nearest_upto(p, cs, j)],
            ),
    decreases j,
{
    if j > 1 {
        lemma_nearest_is_min(p, cs, j - 1);
    }
}

/// Length, range, and component bounds of the accumulated counts and sums:
/// each cluster receives at most all points, an empty cluster's sum is the
/// zero accumulator, a non-empty cluster's sum has the common channel count
/// `chans`, and every summed component is at most `255` per received point.
pub proof fn lemma_accum_facts(data: Seq<ColorView>, asg: Seq<int>, k: nat, chans: int)
    requires
        asg.len() == data.len(),
        forall|i: int| 0 <= i < asg.len() ==> 0 <= #[trigger] asg[i] < k,
        forall|i: int| 0 <= i < data.len() ==> (#[trigger] data[i]).data.len() == chans,
        chans == 3 || chans == 4,
    ensures
        spec_counts(asg, k).len() == k,
        spec_sums(data, asg, k).len() == k,
        forall|c: int| 0 <= c < k ==> 0 <= #[trigger] spec_counts(asg, k)[c] <= data.len(),
        forall|c: int|
            0 <= c < k && spec_counts(asg, k)[c] == 0 ==> #[trigger] spec_sums(data, asg, k)[c]
                == sum_zero(),
        forall|c: int|
            0 <= c < k && spec_counts(asg, k)[c] > 0 ==> (#[trigger] spec_sums(data, asg, k)[c]).len()
                == chans,
        forall|c: int, t: int|
            0 <= c < k && 0 <= t < spec_sums(data, asg, k)[c].len()
                ==> #[trigger] spec_sums(data, asg, k)[c][t] <= 255 * spec_counts(asg, k)[c],
    decreases data.len(),
{
    if data.len() > 0 {
        lemma_accum_facts(data.drop_last(), asg.drop_last(), k, chans);
    }
}

/// The upper-triangular matrix of pairwise center distances, computed once
/// per iteration so that the assignment scan can skip candidates that the
/// triangle inequality rules out.  Entries at `i < j` hold the squared
/// distance between centers `i` and `j`; the rest stay zero.
fn center_distances(clusters: &Vec<Color>) -> (r: Vec<Vec<u64>>)
    requires
        all_compat(views_of(clusters@), views_of(clusters@)),
    ensures
        r@.len() == clusters@.len(),
        forall|i: int| 0 <= i < r@.len() ==> (#[trigger] r@[i])@.len() == clusters@.len(),
        forall|i: int, j: int|
            0 <= i < j < clusters@.len() ==> (#[trigger] r@[i]@[j]) as int == sq_dist(
                views_of(clusters@)[i],
                views_of(clusters@)[j],
            ),
{
    let ghost cv: Seq<ColorView> = views_of(clusters@);
    let k = clusters.len();
    let mut rows: Vec<Vec<u64>> = Vec::new();
    let mut i: usize = 0;
    while i < k
        invariant
            i <= k,
            k == clusters@.len(),
            cv == views_of(clusters@),
            all_compat(cv, cv),
            rows@.len() == i,
            forall|a: int| 0 <= a < i ==> (#[trigger] rows@[a])@.len() == k,
            forall|a: int, b: int|
                0 <= a < i && a < b < k ==> (#[trigger] rows@[a]@[b]) as int == sq_dist(
                    cv[a],
                    cv[b],
                ),
        decreases k - i,
    {
        let mut row: Vec<u64> = Vec::new();
        let mut z: usize = 0;
        while z < k
            invariant
                z <= k,
                row@.len() == z,
            decreases k - z,
        {
            row.push(0);
            z = z + 1;
        }
        let mut j: usize = i + 1;
        while j < k
            invariant
                i + 1 <= j <= k,
                i < k,
                k == clusters@.len(),
                cv == views_of(clusters@),
                all_compat(cv, cv),
                row@.len() == k,
                forall|b: int| i < b < j ==> (#[trigger] row@[b]) as int == sq_dist(cv[i as int], cv[b]),
            decreases k - j,
        {
            proof {
                assert(cv[i as int] == clusters@[i as int]@);
                assert(cv[j as int] == clusters@[j as int]@);
                assert(compat(cv[i as int], cv[j as int]));
            }
            let d = clusters[i].distance(&clusters[j]);
            row.set(j, d);
            j = j + 1;
        }
        rows.push(row);
        i = i + 1;
    }
    rows
}

/// One assignment pass: write each point's nearest-center index (ties to
/// the lowest index) into the assignment vector.  Candidate centers that the
/// precomputed center distances prove too far away (by the triangle
/// inequality) are skipped without computing their exact distance; the
/// result equals the brute-force nearest-center scan.
fn assign_points(data: &Vec<Color>, clusters: &Vec<Color>, assignments: &mut Vec<usize>)
    requires
        1 <= clusters@.len(),
        all_compat(views_of(data@), views_of(clusters@)),
        all_compat(views_of(clusters@), views_of(clusters@)),
        old(assignments)@.len() == data@.len(),
    ensures
        final(assignments)@.len() == data@.len(),
        asg_ints(final(assignments)@) == spec_assign(views_of(data@), views_of(clusters@)),
        forall|i: int|
            0 <= i < data@.len() ==> (#[trigger] final(assignments)@[i] as int) < clusters@.len(),
{
    let ghost dv: Seq<ColorView> = views_of(data@);
    let ghost cv: Seq<ColorView> = views_of(clusters@);
    let k = clusters.len();
    let n = data.len();
    let cdist = center_distances(clusters);
    let mut i: usize = 0;
    while i < n
        invariant
            i <= n,
            n == data@.len(),
            k == clusters@.len(),
            1 <= k,
            dv == views_of(data@),
            cv == views_of(clusters@),
            all_compat(dv, cv),
            all_compat(cv, cv),
            cdist@.len() == k,
            forall|a: int| 0 <= a < k ==> (#[trigger] cdist@[a])@.len() == k,
            forall|a: int, b: int|
                0 <= a < b < k ==> (#[trigger] cdist@[a]@[b]) as int == sq_dist(cv[a], cv[b]),
            assignments@.len() == n,
            forall|t: int|
                0 <= t < i ==> #[trigger] assignments@[t] as int == spec_assign(dv, cv)[t],
            forall|t: int| 0 <= t < i ==> (#[trigger] assignments@[t] as int) < k,
        decreases n - i,
    {
        let point = &data[i];
        let mut closest_idx: usize = 0;
        let mut closest_dist: u64 = clusters[0].distance(point);
        proof {
            lemma_sq_dist_symm(cv[0], dv[i as int]);
        }
        let mut j: usize = 1;
        while j < k
            invariant
                1 <= j <= k,
                i < n,
                n == data@.len(),
                k == clusters@.len(),
                dv == views_of(data@),
                cv == views_of(clusters@),
                all_compat(dv, cv),
                all_compat(cv, cv),
                cdist@.len() == k,
                forall|a: int| 0 <= a < k ==> (#[trigger] cdist@[a])@.len() == k,
                forall|a: int, b: int|
                    0 <= a < b < k ==> (#[trigger] cdist@[a]@[b]) as int == sq_dist(cv[a], cv[b]),
                point == &data@[i as int],
                closest_idx < j,
                closest_idx as int == nearest_upto(dv[i as int], cv, j as int),
                closest_dist as int == sq_dist(dv[i as int], cv[closest_idx as int]),
            decreases k - j,
        {
            proof {
                lemma_sq_dist_range(dv[i as int], cv[closest_idx as int]);
            }
            let lo = if closest_idx < j {
                closest_idx
            } else {
                j
            };
            let hi = if closest_idx < j {
                j
            } else {
                closest_idx
            };
            if cdist[lo][hi] >= 4 * closest_dist {
                // The candidate center is at least twice as far from the
                // current best center as that center is from the point, so
                // it cannot be strictly closer.
                proof {
                    if j < closest_idx {
                        lemma_sq_dist_symm(cv[j as int], cv[closest_idx as int]);
                    }
                    lemma_triangle_prune(dv[i as int], cv[closest_idx as int], cv[j as int]);
                    assert(sq_dist(dv[i as int], cv[j as int]) >= sq_dist(
                        dv[i as int],
                        cv[closest_idx as int],
                    ));
                    assert(nearest_upto(dv[i as int], cv, j + 1) == closest_idx as int);
                }
            } else {
                let dist = clusters[j].distance(point);
                proof {
                    lemma_sq_dist_symm(cv[j as int], dv[i as int]);
                }
                if dist < closest_dist {
                    closest_dist = dist;
                    closest_idx = j;
                }
            }
            j = j + 1;
        }
        assignments.set(i, closest_idx);
        i = i + 1;
    }
    proof {
        assert(asg_ints(assignments@) =~= spec_assign(dv, cv));
    }
}

/// The views of a sequence of accumulators.
pub open spec fn sums_views(s: Seq<Vec<u64>>) -> Seq<Seq<u64>> {
    s.map_values(|v: Vec<u64>| v@)
}

/// One update pass: move each center to the mean of its assigned points; a
/// center whose cluster received no points keeps its previous value.
fn update_centers(data: &Vec<Color>, assignments: &Vec<usize>, clusters: &mut Vec<Color>)
    requires
        1 <= old(clusters)@.len(),
        1 <= data@.len() <= MAX_POINTS,
        assignments@.len() == data@.len(),
        forall|i: int|
            0 <= i < data@.len() ==> (#[trigger] assignments@[i] as int) < old(clusters)@.len(),
        uniform(views_of(data@)),
    ensures
        final(clusters)@.len() == old(clusters)@.len(),
        views_of(final(clusters)@) == spec_update(
            views_of(data@),
            asg_ints(assignments@),
            views_of(old(clusters)@),
        ),
{
    let ghost dv: Seq<ColorView> = views_of(data@);
    let ghost asg: Seq<int> = asg_ints(assignments@);
    let ghost cv0: Seq<ColorView> = views_of(old(clusters)@);
    let ghost chans: int = dv[0].data.len() as int;
    proof {
        assert forall|i: int| 0 <= i < dv.len() implies (#[trigger] dv[i]).data.len() == chans by {
            assert(dv[i].wf());
            assert(dv[0].wf());
            assert(dv[i].color_type == dv[0].color_type);
        }
    }

    let k = clusters.len();
    let n = data.len();
    let mut counts: Vec<usize> = Vec::new();
    let mut sums: Vec<Vec<u64>> = Vec::new();
    let mut c: usize = 0;
    while c < k
        invariant
            c <= k,
            counts@.len() == c,
            sums@.len() == c,
            forall|t: int| 0 <= t < c ==> #[trigger] counts@[t] == 0usize,
            forall|t: int| 0 <= t < c ==> #[trigger] sums@[t]@ == sum_zero(),
        decreases k - c,
    {
        counts.push(0);
        sums.push(Color::zero());
        c = c + 1;
    }
    proof {
        assert(asg_ints(counts@) =~= spec_counts(asg.take(0), k as nat));
        assert(sums_views(sums@) =~= spec_sums(dv.take(0), asg.take(0), k as nat));
    }

    let mut i: usize = 0;
    while i < n
        invariant
            i <= n,
            n == data@.len(),
            1 <= n <= MAX_POINTS,
            k == clusters@.len(),
            1 <= k,
            clusters@ == old(clusters)@,
            dv == views_of(data@),
            asg == asg_ints(assignments@),
            assignments@.len() == n,
            forall|t: int| 0 <= t < n ==> 0 <= #[trigger] asg[t] < k,
            forall|t: int| 0 <= t < dv.len() ==> (#[trigger] dv[t]).data.len() == chans,
            chans == 3 || chans == 4,
            counts@.len() == k,
            sums@.len() == k,
            asg_ints(counts@) == spec_counts(asg.take(i as int), k as nat),
            sums_views(sums@) == spec_sums(dv.take(i as int), asg.take(i as int), k as nat),
        decreases n - i,
    {
        let ghost pre_counts: Seq<int> = asg_ints(counts@);
        let ghost pre_sums: Seq<Seq<u64>> = sums_views(sums@);
        proof {
            lemma_accum_facts(dv.take(i as int), asg.take(i as int), k as nat, chans);
            assert(dv.take(i + 1).drop_last() =~= dv.take(i as int));
            assert(asg.take(i + 1).drop_last() =~= asg.take(i as int));
        }
        let cluster_idx = assignments[i];
        proof {
            assert(asg[i as int] == assignments@[i as int] as int);
            assert(0 <= asg[i as int] < k);
            assert(asg_ints(counts@)[cluster_idx as int] == counts@[cluster_idx as int] as int);
            assert(counts@[cluster_idx as int] <= i);
            assert(sums_views(sums@)[cluster_idx as int] == sums@[cluster_idx as int]@);
            assert(forall|t: int|
                0 <= t < sums@[cluster_idx as int]@.len() ==> #[trigger] sums@[cluster_idx as int]@[t]
                    <= 255 * (i as int));
        }
        let count = counts[cluster_idx];
        counts.set(cluster_idx, count + 1);
        let summed = Color::add(&sums[cluster_idx], &data[i]);
        sums.set(cluster_idx, summed);
        proof {
            assert(asg_ints(counts@) =~= pre_counts.update(asg[i as int], pre_counts[asg[i as int]] + 1));
            assert(sums_views(sums@) =~= pre_sums.update(
                asg[i as int],
                sum_add(pre_sums[asg[i as int]], dv[i as int]),
            ));
            assert(asg_ints(counts@) =~= spec_counts(asg.take(i + 1), k as nat));
            assert(sums_views(sums@) =~= spec_sums(dv.take(i + 1), asg.take(i + 1), k as nat));
        }
        i = i + 1;
    }
    proof {
        assert(dv.take(n as int) =~= dv);
        assert(asg.take(n as int) =~= asg);
        lemma_accum_facts(dv, asg, k as nat, chans);
    }

    let mut c2: usize = 0;
    while c2 < k
        invariant
            c2 <= k,
            k == clusters@.len(),
            dv == views_of(data@),
            asg == asg_ints(assignments@),
            cv0.len() == k,
            counts@.len() == k,
            sums@.len() == k,
            asg_ints(counts@) == spec_counts(asg, k as nat),
            sums_views(sums@) == spec_sums(dv, asg, k as nat),
            forall|t: int|
                0 <= t < k && spec_counts(asg, k as nat)[t] > 0 ==> (#[trigger] spec_sums(
                    dv,
                    asg,
                    k as nat,
                )[t]).len() == chans,
            forall|t: int| 0 <= t < k ==> spec_counts(asg, k as nat)[t] <= dv.len(),
            chans == 3 || chans == 4,
            dv.len() <= MAX_POINTS,
            forall|t: int| c2 <= t < k ==> #[trigger] views_of(clusters@)[t] == cv0[t],
            forall|t: int|
                0 <= t < c2 ==> #[trigger] views_of(clusters@)[t] == spec_update(dv, asg, cv0)[t],
        decreases k - c2,
    {
        proof {
            assert(asg_ints(counts@)[c2 as int] == counts@[c2 as int] as int);
            assert(sums_views(sums@)[c2 as int] == sums@[c2 as int]@);
        }
        let ghost pre_cl: Seq<Color> = clusters@;
        if counts[c2] != 0 {
            let fresh = Color::div(&sums[c2], counts[c2]);
            clusters.set(c2, fresh);
            proof {
                assert(clusters@ == pre_cl.update(c2 as int, fresh));
                assert(forall|t: int|
                    0 <= t < k && t != c2 ==> #[trigger] views_of(clusters@)[t] == views_of(
                        pre_cl,
                    )[t]);
                assert(views_of(clusters@)[c2 as int] == fresh@);
            }
        }
        c2 = c2 + 1;
    }
    proof {
        assert(views_of(clusters@) =~= spec_update(dv, asg, cv0));
    }
}

/// The whole engine: seed `k` initial centers by sampling distinct point
/// indices from generator state `st`, run `iters` iterations, and return the
/// final centers, the final assignments, and the generator state after
/// seeding.
pub open spec fn spec_kmeans(data: Seq<ColorView>, k: nat, iters: nat, st: u64) -> (
    Seq<ColorView>,
    Seq<int>,
    u64,
) {
    let picks = spec_sample(data.len(), k, st);
    let init = Seq::new(k, |c: int| data[picks.0[c] as int]);
    let run = spec_run(data, init, Seq::new(data.len(), |i: int| 0), iters);
    (run.0, run.1, picks.1)
}

/// The iteration loop never changes the number of centers.
pub proof fn lemma_run_centers_len(data: Seq<ColorView>, cs: Seq<ColorView>, asg: Seq<int>, n: nat)
    ensures
        spec_run(data, cs, asg, n).0.len() == cs.len(),
    decreases n,
{
    if n > 0 {
        let a2 = spec_assign(data, cs);
        let c2 = spec_update(data, a2, cs);
        lemma_run_centers_len(data, c2, a2, (n - 1) as nat);
    }
}

/// The assignments returned after `n >= 1` iterations are exactly one
/// assignment pass against the centers that entered the last iteration.
pub proof fn lemma_run_last_assignment(
    data: Seq<ColorView>,
    cs: Seq<ColorView>,
    asg: Seq<int>,
    n: nat,
)
    requires
        n >= 1,
    ensures
        spec_run(data, cs, asg, n).1 == spec_assign(data, spec_run(data, cs, asg, (n - 1) as nat).0),
    decreases n,
{
    let a2 = spec_assign(data, cs);
    let c2 = spec_update(data, a2, cs);
    if n > 1 {
        lemma_run_last_assignment(data, c2, a2, (n - 1) as nat);
        assert(spec_run(data, cs, asg, n).1 == spec_run(data, c2, a2, (n - 1) as nat).1);
        assert(spec_run(data, cs, asg, (n - 1) as nat).0 == spec_run(
            data,
            c2,
            a2,
            (n - 2) as nat,
        ).0);
    } else {
        assert(spec_run(data, cs, asg, 1) == spec_run(data, c2, a2, 0));
        assert(spec_run(data, c2, a2, 0) == (c2, a2));
        assert(spec_run(data, cs, asg, 0).0 == cs);
    }
}

/// After the final assignment pass, every point's assigned center is at
/// least as close (by the distance function) as every other center that was
/// available in that pass, and every center with a lower index than the
/// assigned one is strictly farther: no point is assigned to a strictly
/// farther center than another available one, and ties go to the lowest
/// index.
pub proof fn lemma_final_assignment_nearest(
    data: Seq<ColorView>,
    cs: Seq<ColorView>,
    asg0: Seq<int>,
    n: nat,
)
    requires
        n >= 1,
        cs.len() >= 1,
    ensures
        ({
            let pre = spec_run(data, cs, asg0, (n - 1) as nat).0;
            let asg = spec_run(data, cs, asg0, n).1;
            &&& asg.len() == data.len()
            &&& forall|i: int|
                0 <= i < data.len() ==> 0 <= #[trigger] asg[i] < cs.len()
            &&& forall|i: int, j: int|
                0 <= i < data.len() && 0 <= j < cs.len() ==> sq_dist(data[i], pre[asg[i]])
                    <= sq_dist(#[trigger] data[i], #[trigger] pre[j])
            &&& forall|i: int, j: int|
                0 <= i < data.len() && 0 <= j < asg[i] ==> sq_dist(#[trigger] data[i], #[trigger] pre[j])
                    > sq_dist(data[i], pre[asg[i]])
        }),
{
    let pre = spec_run(data, cs, asg0, (n - 1) as nat).0;
    let asg = spec_run(data, cs, asg0, n).1;
    lemma_run_centers_len(data, cs, asg0, (n - 1) as nat);
    lemma_run_last_assignment(data, cs, asg0, n);
    assert forall|i: int| 0 <= i < data.len() implies 0 <= #[trigger] asg[i] < cs.len() by {
        lemma_nearest_is_min(data[i], pre, pre.len() as int);
    }
    assert forall|i: int, j: int|
        0 <= i < data.len() && 0 <= j < cs.len() implies sq_dist(data[i], pre[asg[i]]) <= sq_dist(
        #[trigger] data[i],
        #[trigger] pre[j],
    ) by {
        lemma_nearest_is_min(data[i], pre, pre.len() as int);
    }
    assert forall|i: int, j: int|
        0 <= i < data.len() && 0 <= j < asg[i] implies sq_dist(#[trigger] data[i], #[trigger] pre[j])
        > sq_dist(data[i], pre[asg[i]]) by {
        lemma_nearest_is_min(data[i], pre, pre.len() as int);
    }
}

/// At the boundary `k == len(points)`, with pairwise-distinct points, every
/// point ends up as its own singleton cluster: the final assignment is a
/// bijection between points and clusters, and each assigned center equals
/// its one point.  The seeded sample of `k == n` distinct indices is a
/// permutation of the points, which is a fixpoint of the iteration.
pub proof fn lemma_boundary_singletons(data: Seq<ColorView>, iters: nat, seed: u64)
    requires
        1 <= data.len() <= usize::MAX,
        uniform(data),
        iters >= 1,
        forall|a: int, b: int|
            0 <= a < b < data.len() ==> (#[trigger] data[a]).data != (#[trigger] data[b]).data,
    ensures
        ({
            let m = spec_kmeans(data, data.len(), iters, seed);
            &&& m.1.len() == data.len()
            &&& forall|i: int| 0 <= i < data.len() ==> 0 <= #[trigger] m.1[i] < data.len()
            &&& forall|i: int| 0 <= i < data.len() ==> m.0[#[trigger] m.1[i]] == data[i]
            &&& forall|a: int, b: int| 0 <= a < b < data.len() ==> m.1[a] != m.1[b]
        }),
{
    let n = data.len();
    crate::rng::lemma_sample_permutes(n, n, seed);
    let picks = spec_sample(n, n, seed).0;
    let init = Seq::new(n, |c: int| data[picks[c] as int]);
    let sigma = Seq::new(n, |i: int| choose|c: int| 0 <= c < n && picks[c] as int == i);
    let tau = Seq::new(n, |j: int| picks[j] as int);
    assert forall|i: int|
        0 <= i < n implies 0 <= #[trigger] sigma[i] < n && picks[sigma[i]] as int == i by {
        crate::rng::lemma_distinct_full_is_surjective(picks, n, i);
        let c = choose|c: int| 0 <= c < n && picks[c] as int == i;
        assert(0 <= c < n && picks[c] as int == i);
    }
    assert forall|i: int| 0 <= i < n implies init[#[trigger] sigma[i]] == data[i] by {
        assert(init[sigma[i]] == data[picks[sigma[i]] as int]);
    }
    assert forall|j: int| 0 <= j < n implies sigma[#[trigger] tau[j]] == j by {
        let c = sigma[tau[j]];
        assert(picks[c] as int == tau[j]);
        assert(picks[c] == picks[j]);
        if c != j {
            assert(picks[c] != picks[j]);
        }
    }
    let zeros = Seq::new(n, |i: int| 0int);
    lemma_singleton_stable(data, init, sigma, tau, zeros, iters);
    let m = spec_kmeans(data, n, iters, seed);
    assert(m.0 == init && m.1 == sigma);
    assert forall|a: int, b: int| 0 <= a < b < n implies m.1[a] != m.1[b] by {
        if sigma[a] == sigma[b] {
            assert(picks[sigma[a]] as int == a);
            assert(picks[sigma[b]] as int == b);
        }
    }
}

/// Determinism: the clustering result is a function of the points, the
/// cluster count, the iteration budget and the seed alone.  Together with
/// the contract of [`Context::k_means`], which returns exactly this model
/// value, two calls on equal inputs with equal seeds return equal centers
/// and equal assignments.
pub proof fn lemma_deterministic(
    data: Seq<ColorView>,
    k: nat,
    iters: nat,
    seed: u64,
    r1: (Seq<ColorView>, Seq<int>, u64),
    r2: (Seq<ColorView>, Seq<int>, u64),
)
    requires
        r1 == spec_kmeans(data, k, iters, seed),
        r2 == spec_kmeans(data, k, iters, seed),
    ensures
        r1 == r2,
{
}

/// The flat channel bytes of a quantized image: each point replaced by the
/// channel values of its assigned center, in point order.
pub open spec fn spec_quantized(cs: Seq<ColorView>, asg: Seq<int>) -> Seq<u8>
    decreases asg.len(),
{
    if asg.len() == 0 {
        Seq::empty()
    } else {
        spec_quantized(cs, asg.drop_last()) + cs[asg.last()].data
    }
}

/// Rebuild the flat pixel bytes of a quantized image by writing, for each
/// point in order, the channel values of its assigned center.
pub fn quantized_bytes(clusters: &Vec<Color>, assignments: &Vec<usize>) -> (r: Vec<u8>)
    requires
        forall|i: int|
            0 <= i < assignments@.len() ==> (#[trigger] assignments@[i] as int) < clusters@.len(),
    ensures
        r@ == spec_quantized(views_of(clusters@), asg_ints(assignments@)),
{
    let ghost cs: Seq<ColorView> = views_of(clusters@);
    let ghost asg: Seq<int> = asg_ints(assignments@);
    let n = assignments.len();
    let mut out: Vec<u8> = Vec::new();
    let mut i: usize = 0;
    while i < n
        invariant
            i <= n,
            n == assignments@.len(),
            cs == views_of(clusters@),
            asg == asg_ints(assignments@),
            forall|t: int| 0 <= t < n ==> 0 <= #[trigger] asg[t] < clusters@.len(),
            out@ == spec_quantized(cs, asg.take(i as int)),
        decreases n - i,
    {
        let c = assignments[i];
        proof {
            assert(asg[i as int] == assignments@[i as int] as int);
            assert(0 <= asg[i as int] < clusters@.len());
        }
        let ghost pre: Seq<u8> = out@;
        let m = clusters[c].data.len();
        let mut t: usize = 0;
        while t < m
            invariant
                t <= m,
                i < n,
                c == assignments@[i as int],
                0 <= c < clusters@.len(),
                cs == views_of(clusters@),
                m == clusters@[c as int].data@.len(),
                out@ == pre + cs[c as int].data.take(t as int),
            decreases m - t,
        {
            out.push(clusters[c].data[t]);
            proof {
                assert(out@ =~= pre + cs[c as int].data.take(t + 1));
            }
            t = t + 1;
        }
        proof {
            assert(asg.take(i + 1).drop_last() =~= asg.take(i as int));
            assert(cs[c as int].data.take(m as int) =~= cs[c as int].data);
            assert(out@ =~= spec_quantized(cs, asg.take(i + 1)));
        }
        i = i + 1;
    }
    proof {
        assert(asg.take(n as int) =~= asg);
    }
    out
}

/// The accumulated counts and sums always have one entry per cluster.
proof fn lemma_accum_len(data: Seq<ColorView>, asg: Seq<int>, k: nat)
    requires
        asg.len() == data.len(),
        forall|t: int| 0 <= t < asg.len() ==> 0 <= #[trigger] asg[t] < k,
    ensures
        spec_counts(asg, k).len() == k,
        spec_sums(data, asg, k).len() == k,
    decreases asg.len(),
{
    if asg.len() > 0 {
        lemma_accum_len(data.drop_last(), asg.drop_last(), k);
    }
}

/// A cluster that no assignment names receives nothing: its count stays
/// zero and its sum stays the zero accumulator.
proof fn lemma_counts_unhit(data: Seq<ColorView>, asg: Seq<int>, k: nat, c: int)
    requires
        asg.len() == data.len(),
        0 <= c < k,
        forall|t: int| 0 <= t < asg.len() ==> 0 <= #[trigger] asg[t] < k,
        forall|t: int| 0 <= t < asg.len() ==> #[trigger] asg[t] != c,
    ensures
        spec_counts(asg, k)[c] == 0,
        spec_sums(data, asg, k)[c] == sum_zero(),
    decreases asg.len(),
{
    if asg.len() > 0 {
        assert(asg.last() == asg[asg.len() - 1]);
        assert(forall|t: int|
            0 <= t < asg.drop_last().len() ==> #[trigger] asg.drop_last()[t] == asg[t]);
        lemma_accum_len(data.drop_last(), asg.drop_last(), k);
        lemma_counts_unhit(data.drop_last(), asg.drop_last(), k, c);
        assert(asg.last() != c);
    }
}

/// Under an injective assignment, each named cluster holds exactly its one
/// point: its count is one and its sum is that single accumulated point.
proof fn lemma_counts_injective(data: Seq<ColorView>, asg: Seq<int>, k: nat, i: int)
    requires
        asg.len() == data.len(),
        forall|t: int| 0 <= t < asg.len() ==> 0 <= #[trigger] asg[t] < k,
        forall|a: int, b: int| 0 <= a < b < asg.len() ==> asg[a] != asg[b],
        0 <= i < asg.len(),
    ensures
        spec_counts(asg, k)[asg[i]] == 1,
        spec_sums(data, asg, k)[asg[i]] == sum_add(sum_zero(), data[i]),
    decreases asg.len(),
{
    assert(asg.last() == asg[asg.len() - 1]);
    assert(forall|t: int| 0 <= t < asg.drop_last().len() ==> #[trigger] asg.drop_last()[t] == asg[t]);
    assert(data.last() == data[data.len() - 1]);
    lemma_accum_len(data.drop_last(), asg.drop_last(), k);
    if i == asg.len() - 1 {
        assert(forall|t: int|
            0 <= t < asg.drop_last().len() ==> #[trigger] asg.drop_last()[t] != asg[i]);
        lemma_counts_unhit(data.drop_last(), asg.drop_last(), k, asg[i]);
        assert(spec_counts(asg.drop_last(), k)[asg[i]] == 0);
        assert(spec_sums(data.drop_last(), asg.drop_last(), k)[asg[i]] == sum_zero());
        assert(data.last() == data[i]);
        assert(spec_counts(asg, k)[asg[i]] == 1);
    } else {
        lemma_counts_injective(data.drop_last(), asg.drop_last(), k, i);
        assert(asg.drop_last()[i] == asg[i]);
        assert(data.drop_last()[i] == data[i]);
        assert(asg.last() != asg[i]);
    }
}

/// When one center sits at distance zero from the point and every other
/// center is strictly farther, the nearest-center scan finds exactly that
/// center.
proof fn lemma_nearest_exact(p: ColorView, cs: Seq<ColorView>, m: int, j: int)
    requires
        0 <= m < cs.len(),
        sq_dist(p, cs[m]) == 0,
        forall|t: int| 0 <= t < cs.len() && t != m ==> sq_dist(p, #[trigger] cs[t]) > 0,
        1 <= j <= cs.len(),
    ensures
        j > m ==> nearest_upto(p, cs, j) == m,
        j <= m ==> sq_dist(p, cs[nearest_upto(p, cs, j)]) > 0,
    decreases j,
{
    lemma_nearest_is_min(p, cs, j);
    if j > 1 {
        lemma_nearest_exact(p, cs, m, j - 1);
    }
}

/// Singleton clusters are a fixpoint of the iteration: when the centers are
/// a permutation (`sigma` with inverse `tau`) of pairwise-distinct points,
/// the assignment pass assigns each point its own center and the update
/// pass leaves every center unchanged.  With as many clusters as points,
/// the assignment is therefore a bijection between points and clusters.
pub proof fn lemma_singleton_fixpoint(
    data: Seq<ColorView>,
    cs: Seq<ColorView>,
    sigma: Seq<int>,
    tau: Seq<int>,
)
    requires
        data.len() >= 1,
        cs.len() == data.len(),
        sigma.len() == data.len(),
        tau.len() == data.len(),
        uniform(data),
        forall|i: int| 0 <= i < data.len() ==> 0 <= #[trigger] sigma[i] < data.len(),
        forall|j: int| 0 <= j < data.len() ==> 0 <= #[trigger] tau[j] < data.len(),
        forall|i: int| 0 <= i < data.len() ==> cs[#[trigger] sigma[i]] == data[i],
        forall|j: int| 0 <= j < data.len() ==> sigma[#[trigger] tau[j]] == j,
        forall|a: int, b: int|
            0 <= a < b < data.len() ==> (#[trigger] data[a]).data != (#[trigger] data[b]).data,
    ensures
        spec_assign(data, cs) == sigma,
        spec_update(data, spec_assign(data, cs), cs) == cs,
        forall|i: int|
            0 <= i < data.len() ==> cs[#[trigger] spec_assign(data, cs)[i]] == data[i],
{
    let k = cs.len();
    let asg = spec_assign(data, cs);
    assert forall|i: int, j: int|
        0 <= i < data.len() && 0 <= j < data.len() implies (#[trigger] data[i]).data.len() == (
    #[trigger] data[j]).data.len() by {
        assert(data[i].wf());
        assert(data[j].wf());
        assert(data[i].color_type == data[0].color_type);
        assert(data[j].color_type == data[0].color_type);
    }
    assert forall|i: int| 0 <= i < data.len() implies #[trigger] asg[i] == sigma[i] by {
        let m = sigma[i];
        lemma_sq_dist_zero_iff_equal(data[i], cs[m]);
        assert(sq_dist(data[i], cs[m]) == 0);
        assert forall|t: int| 0 <= t < k && t != m implies sq_dist(data[i], #[trigger] cs[t])
            > 0 by {
            assert(sigma[tau[t]] == t);
            assert(cs[t] == data[tau[t]]);
            assert(tau[t] != i);
            assert(data[tau[t]].data != data[i].data);
            lemma_sq_dist_zero_iff_equal(data[i], cs[t]);
            lemma_norm2_nonneg(chan_diff(data[i].data, cs[t].data));
        }
        lemma_nearest_exact(data[i], cs, m, k as int);
    }
    assert(asg =~= sigma);
    assert forall|a: int, b: int| 0 <= a < b < asg.len() implies asg[a] != asg[b] by {
        if sigma[a] == sigma[b] {
            assert(cs[sigma[a]] == data[a]);
            assert(cs[sigma[b]] == data[b]);
        }
    }
    assert forall|c: int| 0 <= c < k implies #[trigger] spec_update(data, asg, cs)[c] == cs[c] by {
        let i = tau[c];
        assert(sigma[i] == c);
        assert(asg[i] == c);
        lemma_counts_injective(data, asg, k as nat, i);
        assert(data[i].wf());
        lemma_mean_of_single(data[i]);
        assert(cs[c] == data[i]);
    }
    assert(spec_update(data, asg, cs) =~= cs);
}

/// Once singleton clusters are reached they persist: any further number of
/// iterations returns the same centers, and the assignment stays the
/// bijection that sends each point to its own cluster.
pub proof fn lemma_singleton_stable(
    data: Seq<ColorView>,
    cs: Seq<ColorView>,
    sigma: Seq<int>,
    tau: Seq<int>,
    asg0: Seq<int>,
    n: nat,
)
    requires
        n >= 1,
        data.len() >= 1,
        cs.len() == data.len(),
        sigma.len() == data.len(),
        tau.len() == data.len(),
        uniform(data),
        forall|i: int| 0 <= i < data.len() ==> 0 <= #[trigger] sigma[i] < data.len(),
        forall|j: int| 0 <= j < data.len() ==> 0 <= #[trigger] tau[j] < data.len(),
        forall|i: int| 0 <= i < data.len() ==> cs[#[trigger] sigma[i]] == data[i],
        forall|j: int| 0 <= j < data.len() ==> sigma[#[trigger] tau[j]] == j,
        forall|a: int, b: int|
            0 <= a < b < data.len() ==> (#[trigger] data[a]).data != (#[trigger] data[b]).data,
    ensures
        spec_run(data, cs, asg0, n) == (cs, sigma),
    decreases n,
{
    lemma_singleton_fixpoint(data, cs, sigma, tau);
    if n == 1 {
        assert(spec_run(data, cs, asg0, 1) == spec_run(data, cs, sigma, 0));
    } else {
        lemma_singleton_stable(data, cs, sigma, tau, sigma, (n - 1) as nat);
    }
}

/// Receiver of the engine's progress signal.  The signal is a side channel
/// for display purposes only: the engine's contract does not depend on the
/// observer, so consuming or ignoring it cannot affect results.
pub trait ProgressObserver {
    /// Called once before each iteration, with the number of finished
    /// iterations and the total iteration budget.
    fn on_iteration(&mut self, done: usize, total: usize);
}

/// An observer that ignores all progress signals.
pub struct NoProgress {}

impl ProgressObserver for NoProgress {
    fn on_iteration(&mut self, _done: usize, _total: usize) {
    }
}

/// Clustering context, holding the seeded generator used to draw the
/// initial centers.
pub struct Context {
    rng: SeededRng,
}

impl Context {
    /// The state of the context's generator.
    pub closed spec fn rng_state(self) -> u64 {
        self.rng.state_spec()
    }

    /// A context whose generator starts at `seed`.
    pub fn new(seed: u64) -> (r: Self)
        ensures
            r.rng_state() == seed,
    {
        Context { rng: SeededRng::new(seed) }
    }

    /// K-means clustering for color points: returns `(clusters, assignments)`
    /// such that for any `x = assignments[i]`, `data[i]` belongs to
    /// `clusters[x]`.  The result equals the mathematical model
    /// [`spec_kmeans`] of the inputs and the generator state, so a fixed
    /// seed, input order and iteration budget reproduce it exactly.
    pub fn k_means(&mut self, data: &Vec<Color>, k: usize, iterations: usize) -> (r: Result<
        (Vec<Color>, Vec<usize>),
        KmeansError,
    >)
        requires
            uniform(views_of(data@)),
            data@.len() <= MAX_POINTS,
        ensures
            r.is_ok() <==> (1 <= k <= data@.len()),
            k == 0 ==> r == Result::<(Vec<Color>, Vec<usize>), KmeansError>::Err(
                KmeansError::KZero,
            ),
            k > data@.len() && k >= 1 ==> r == Result::<(Vec<Color>, Vec<usize>), KmeansError>::Err(
                KmeansError::KTooLarge,
            ),
            !(1 <= k <= data@.len()) ==> *final(self) == *old(self),
            r matches Ok(out) ==> ({
                let m = spec_kmeans(
                    views_of(data@),
                    k as nat,
                    iterations as nat,
                    old(self).rng_state(),
                );
                &&& views_of(out.0@) == m.0
                &&& asg_ints(out.1@) == m.1
                &&& final(self).rng_state() == m.2
                &&& out.0@.len() == k
                &&& out.1@.len() == data@.len()
                &&& forall|i: int| 0 <= i < out.1@.len() ==> (#[trigger] out.1@[i] as int) < k
                &&& centers_ok(views_of(data@), views_of(out.0@))
            }),
    {
        let mut silent = NoProgress {  };
        self.k_means_observed(data, k, iterations, &mut silent)
    }

    /// [`Context::k_means`] with a progress observer.  The contract is the
    /// same; the observer receives one signal per iteration.
    pub fn k_means_observed<O: ProgressObserver>(
        &mut self,
        data: &Vec<Color>,
        k: usize,
        iterations: usize,
        progress: &mut O,
    ) -> (r: Result<(Vec<Color>, Vec<usize>), KmeansError>)
        requires
            uniform(views_of(data@)),
            data@.len() <= MAX_POINTS,
        ensures
            r.is_ok() <==> (1 <= k <= data@.len()),
            k == 0 ==> r == Result::<(Vec<Color>, Vec<usize>), KmeansError>::Err(
                KmeansError::KZero,
            ),
            k > data@.len() && k >= 1 ==> r == Result::<(Vec<Color>, Vec<usize>), KmeansError>::Err(
                KmeansError::KTooLarge,
            ),
            !(1 <= k <= data@.len()) ==> *final(self) == *old(self),
            r matches Ok(out) ==> ({
                let m = spec_kmeans(
                    views_of(data@),
                    k as nat,
                    iterations as nat,
                    old(self).rng_state(),
                );
                &&& views_of(out.0@) == m.0
                &&& asg_ints(out.1@) == m.1
                &&& final(self).rng_state() == m.2
                &&& out.0@.len() == k
                &&& out.1@.len() == data@.len()
                &&& forall|i: int| 0 <= i < out.1@.len() ==> (#[trigger] out.1@[i] as int) < k
                &&& centers_ok(views_of(data@), views_of(out.0@))
            }),
    {
        let n = data.len();
        if k == 0 {
            return Err(KmeansError::KZero);
        }
        if k > n {
            return Err(KmeansError::KTooLarge);
        }

        let ghost dv: Seq<ColorView> = views_of(data@);
        let ghost st0: u64 = self.rng_state();
        let ghost zeros: Seq<int> = Seq::new(n as nat, |i: int| 0);
        let ghost chans: int = dv[0].data.len() as int;
        proof {
            assert forall|i: int| 0 <= i < dv.len() implies (#[trigger] dv[i]).data.len()
                == chans by {
                assert(dv[i].wf());
                assert(dv[0].wf());
                assert(dv[i].color_type == dv[0].color_type);
            }
        }

        let mut assignments: Vec<usize> = Vec::new();
        let mut z: usize = 0;
        while z < n
            invariant
                z <= n,
                assignments@.len() == z,
                forall|t: int| 0 <= t < z ==> #[trigger] assignments@[t] == 0usize,
            decreases n - z,
        {
            assignments.push(0);
            z = z + 1;
        }
        proof {
            assert(asg_ints(assignments@) =~= zeros);
        }

        let picks = self.rng.sample_indices(n, k);
        let mut clusters: Vec<Color> = Vec::new();
        let mut c: usize = 0;
        while c < k
            invariant
                c <= k,
                k <= n,
                n == data@.len(),
                dv == views_of(data@),
                clusters@.len() == c,
                picks@.len() == k,
                forall|a: int| 0 <= a < k ==> (#[trigger] picks@[a] as int) < n,
                forall|t: int|
                    0 <= t < c ==> #[trigger] views_of(clusters@)[t] == dv[picks@[t] as int],
            decreases k - c,
        {
            let ghost pre_cl: Seq<Color> = clusters@;
            let picked = data[picks[c]].duplicate();
            clusters.push(picked);
            proof {
                assert(clusters@ == pre_cl.push(picked));
                assert(views_of(clusters@) =~= views_of(pre_cl).push(picked@));
            }
            c = c + 1;
        }
        let ghost init_cv: Seq<ColorView> = views_of(clusters@);
        proof {
            assert(init_cv =~= Seq::new(
                k as nat,
                |t: int| dv[spec_sample(n as nat, k as nat, st0).0[t] as int],
            ));
            assert forall|j: int| 0 <= j < k implies (#[trigger] init_cv[j]).wf()
                && init_cv[j].color_type == dv[0].color_type by {
                assert(init_cv[j] == dv[picks@[j] as int]);
            }
        }

        let mut it: usize = 0;
        while it < iterations
            invariant
                it <= iterations,
                n == data@.len(),
                1 <= n <= MAX_POINTS,
                1 <= k <= n,
                k == clusters@.len(),
                dv == views_of(data@),
                uniform(dv),
                chans == dv[0].data.len(),
                chans == 3 || chans == 4,
                forall|t: int| 0 <= t < dv.len() ==> (#[trigger] dv[t]).data.len() == chans,
                assignments@.len() == n,
                forall|t: int| 0 <= t < n ==> (#[trigger] assignments@[t] as int) < k,
                centers_ok(dv, views_of(clusters@)),
                self.rng_state() == spec_sample(n as nat, k as nat, st0).1,
                spec_run(dv, init_cv, zeros, iterations as nat) == spec_run(
                    dv,
                    views_of(clusters@),
                    asg_ints(assignments@),
                    (iterations - it) as nat,
                ),
            decreases iterations - it,
        {
            progress.on_iteration(it, iterations);
            let ghost cv_pre: Seq<ColorView> = views_of(clusters@);
            let ghost asg_pre: Seq<int> = asg_ints(assignments@);
            proof {
                assert forall|a: int, b: int|
                    0 <= a < dv.len() && 0 <= b < cv_pre.len() implies compat(
                    #[trigger] dv[a],
                    #[trigger] cv_pre[b],
                ) by {
                    assert(dv[a].wf());
                    assert(cv_pre[b].wf());
                    assert(dv[a].color_type == dv[0].color_type);
                }
                assert forall|a: int, b: int|
                    0 <= a < cv_pre.len() && 0 <= b < cv_pre.len() implies compat(
                    #[trigger] cv_pre[a],
                    #[trigger] cv_pre[b],
                ) by {
                    assert(cv_pre[a].wf());
                    assert(cv_pre[b].wf());
                }
            }
            assign_points(data, &clusters, &mut assignments);
            update_centers(data, &assignments, &mut clusters);
            proof {
                let asg_new = asg_ints(assignments@);
                let cv_new = views_of(clusters@);
                assert(asg_new == spec_assign(dv, cv_pre));
                assert(cv_new == spec_update(dv, asg_new, cv_pre));
                assert(spec_run(dv, cv_pre, asg_pre, (iterations - it) as nat) == spec_run(
                    dv,
                    cv_new,
                    asg_new,
                    (iterations - it - 1) as nat,
                ));
                lemma_accum_facts(dv, asg_new, k as nat, chans);
                let counts = spec_counts(asg_new, k as nat);
                let sums = spec_sums(dv, asg_new, k as nat);
                assert forall|j: int| 0 <= j < k implies (#[trigger] cv_new[j]).wf()
                    && cv_new[j].color_type == dv[0].color_type by {
                    if counts[j] == 0 {
                        assert(cv_new[j] == cv_pre[j]);
                    } else {
                        assert(cv_new[j] == sum_mean(sums[j], counts[j] as nat));
                        assert(sums[j].len() == chans);
                        assert(dv[0].wf());
                        if chans == 3 {
                            assert(dv[0].color_type == ColorKind::Rgb8);
                        } else {
                            assert(dv[0].color_type == ColorKind::Rgba8);
                        }
                    }
                }
            }
            it = it + 1;
        }
        proof {
            assert(spec_run(
                dv,
                views_of(clusters@),
                asg_ints(assignments@),
                0,
            ) == (views_of(clusters@), asg_ints(assignments@)));
        }
        Ok((clusters, assignments))
    }
}

} // verus!
