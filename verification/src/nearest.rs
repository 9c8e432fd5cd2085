//! Assigning vectors to their nearest centroid.

use crate::arithmetic::{distances, measured, measures};
use crate::embeddings::{lemma_row_within, lemma_rows_of, row, row_of};
use crate::scalar::{infinity, Scalar};
use vstd::prelude::*;

verus! {

/// Whether some distance is finite or below.
pub open spec fn any_below_infinity(distances: Seq<Scalar>) -> bool {
    exists|j: int| 0 <= j < distances.len() && (#[trigger] distances[j]).lt(infinity())
}

/// Whether `best` is the index of the least distance, the first of them among
/// equals. Infinities and NaNs do not compete; where there is nothing else,
/// `best` is 0.
pub open spec fn nearest(distances: Seq<Scalar>, best: int) -> bool {
    if any_below_infinity(distances) {
        &&& 0 <= best < distances.len()
        &&& distances[best].lt(infinity())
        &&& forall|j: int| 0 <= j < distances.len() ==> !(#[trigger] distances[j]).lt(distances[best])
        &&& forall|j: int| 0 <= j < best ==> (#[trigger] distances[j]).nan() || distances[best].lt(distances[j])
    } else {
        best == 0
    }
}

/// The nearest index is unique.
pub proof fn law_nearest_is_unique(distances: Seq<Scalar>, a: int, b: int)
    requires
        nearest(distances, a),
        nearest(distances, b),
    ensures
        a == b,
{
    if any_below_infinity(distances) {
        if a < b {
            assert(distances[a].nan() || distances[b].lt(distances[a]));
        } else if b < a {
            assert(distances[b].nan() || distances[a].lt(distances[b]));
        }
    }
}

/// Whether `best` is nearest and `least` is its distance, or infinity where no
/// distance competes.
spec fn leads(distances: Seq<Scalar>, best: int, least: Scalar) -> bool {
    &&& nearest(distances, best)
    &&& least == if any_below_infinity(distances) {
        distances[best]
    } else {
        infinity()
    }
}

proof fn lemma_leads_push(distances: Seq<Scalar>, best: int, least: Scalar, next: Scalar)
    requires
        leads(distances, best, least),
    ensures
        next.lt(least) ==> leads(distances.push(next), distances.len() as int, next),
        !next.lt(least) ==> leads(distances.push(next), best, least),
{
    let longer = distances.push(next);
    let n = distances.len() as int;
    assert(longer[n] == next);
    assert forall|j: int| 0 <= j < n implies #[trigger] longer[j] == distances[j] by {}
    if any_below_infinity(distances) {
        let j = choose|j: int| 0 <= j < distances.len() && (#[trigger] distances[j]).lt(infinity());
        assert(longer[j].lt(infinity()));
        if next.lt(least) {
            assert(next.lt(infinity()));
        }
    } else {
        if next.lt(least) {
            assert(longer[n].lt(infinity()));
            assert forall|j: int| 0 <= j < n implies (#[trigger] longer[j]).nan() || next.lt(longer[j]) by {
                assert(!distances[j].lt(infinity()));
            }
            assert forall|j: int| 0 <= j < longer.len() implies !(#[trigger] longer[j]).lt(next) by {
                if j < n {
                    assert(!distances[j].lt(infinity()));
                }
            }
        } else {
            assert forall|j: int| 0 <= j < longer.len() implies !(#[trigger] longer[j]).lt(infinity()) by {
                if j < n {
                    assert(!distances[j].lt(infinity()));
                }
            }
        }
    }
}

/// The index of the least distance.
pub fn nearest_index(distances: &[Scalar]) -> (r: usize)
    ensures
        nearest(distances@, r as int),
        distances@.len() > 0 ==> r < distances@.len(),
{
    let mut best: usize = 0;
    let mut least: Scalar = infinity();
    let mut j: usize = 0;
    while j < distances.len()
        invariant
            j <= distances@.len(),
            leads(distances@.take(j as int), best as int, least),
            best < distances@.len() || best == 0,
        decreases distances@.len() - j,
    {
        let next: Scalar = distances[j];
        proof {
            lemma_leads_push(distances@.take(j as int), best as int, least, next);
            assert(distances@.take(j as int).push(next) =~= distances@.take(j + 1));
        }
        if next.less(least) {
            least = next;
            best = j;
        }
        j = j + 1;
    }
    assert(distances@.take(j as int) =~= distances@);
    best
}

/// Whether the centroid `best` is the nearest to `vector`, going by distances that
/// `measure` gave.
pub open spec fn goes_to<M: Fn(&[Scalar], &[Scalar]) -> Vec<Scalar>>(
    measure: M,
    vector: Seq<Scalar>,
    centroids: Seq<Scalar>,
    best: int,
) -> bool {
    exists|d: Seq<Scalar>| #[trigger]
        measured(measure, vector, centroids, d) && nearest(d, best) && d.len() == centroids.len() / vector.len()
}

/// The centroid nearest to `vector`, of those in the rows of `centroids`.
pub fn nearest_centroid<M: Fn(&[Scalar], &[Scalar]) -> Vec<Scalar>>(
    vector: &[Scalar],
    centroids: &[Scalar],
    measure: &M,
) -> (r: usize)
    requires
        measures(*measure),
        vector@.len() > 0,
        centroids@.len() % vector@.len() == 0,
    ensures
        goes_to(*measure, vector@, centroids@, r as int),
        centroids@.len() > 0 ==> r < centroids@.len() / vector@.len(),
{
    let d = distances(measure, vector, centroids);
    proof {
        lemma_rows_of(centroids@.len() as int, vector@.len() as int);
        assert(measured(*measure, vector@, centroids@, d@));
        if centroids@.len() > 0 {
            let rows = centroids@.len() / vector@.len();
            if rows == 0 {
                assert(rows * vector@.len() == 0) by (nonlinear_arith)
                    requires
                        rows == 0,
                ;
            }
        }
    }
    nearest_index(d.as_slice())
}

/// The distances of row `i` in tables that hold, for each centroid, the
/// distances of all rows.
pub open spec fn column(tables: Seq<Seq<Scalar>>, i: int) -> Seq<Scalar> {
    Seq::new(tables.len(), |j: int| tables[j][i])
}

/// Whether `tables` holds, for each of `k` centroids, its distances to all rows
/// of `data`, and `picks` names for each row the centroid nearest to it.
pub open spec fn assigned_by<M: Fn(&[Scalar], &[Scalar]) -> Vec<Scalar>>(
    measure: M,
    data: Seq<Scalar>,
    dim: nat,
    centroids: Seq<Scalar>,
    k: nat,
    picks: Seq<usize>,
    tables: Seq<Seq<Scalar>>,
) -> bool {
    &&& tables.len() == k
    &&& forall|j: int|
        0 <= j < k ==> measured(measure, row(centroids, dim, j), data, #[trigger] tables[j]) && tables[j].len()
            == data.len() / dim
    &&& picks.len() == data.len() / dim
    &&& forall|i: int| 0 <= i < picks.len() ==> nearest(column(tables, i), #[trigger] picks[i] as int)
}

/// Whether `picks` names, for each row of `data`, the nearest of `k` centroids,
/// going by the distances that `measure` gave.
pub open spec fn assigned<M: Fn(&[Scalar], &[Scalar]) -> Vec<Scalar>>(
    measure: M,
    data: Seq<Scalar>,
    dim: nat,
    centroids: Seq<Scalar>,
    k: nat,
    picks: Seq<usize>,
) -> bool {
    exists|tables: Seq<Seq<Scalar>>| #[trigger] assigned_by(measure, data, dim, centroids, k, picks, tables)
}

/// Finds the nearest of `k` centroids for each row of `data`.
pub fn assign_rows<M: Fn(&[Scalar], &[Scalar]) -> Vec<Scalar>>(
    data: &[Scalar],
    dim: usize,
    centroids: &[Scalar],
    k: usize,
    measure: &M,
) -> (r: Vec<usize>)
    requires
        measures(*measure),
        dim > 0,
        k > 0,
        data@.len() % (dim as nat) == 0,
        centroids@.len() == k * dim,
    ensures
        assigned(*measure, data@, dim as nat, centroids@, k as nat, r@),
        r@.len() == data@.len() / (dim as nat),
        forall|i: int| 0 <= i < r@.len() ==> (#[trigger] r@[i]) < k,
{
    let n: usize = data.len() / dim;
    let mut picks: Vec<usize> = Vec::with_capacity(n);
    let mut least: Vec<Scalar> = Vec::with_capacity(n);
    let ghost mut tables: Seq<Seq<Scalar>> = Seq::empty();
    let mut i: usize = 0;
    while i < n
        invariant
            i <= n,
            picks@.len() == i,
            least@.len() == i,
            tables == Seq::<Seq<Scalar>>::empty(),
            forall|r: int|
                0 <= r < i ==> #[trigger] picks@[r] == 0 && leads(column(tables, r), picks@[r] as int, least@[r]),
        decreases n - i,
    {
        picks.push(0);
        least.push(infinity());
        assert(column(tables, i as int) =~= Seq::<Scalar>::empty());
        i = i + 1;
    }
    let mut j: usize = 0;
    while j < k
        invariant
            measures(*measure),
            dim > 0,
            j <= k,
            n == data@.len() / (dim as nat),
            data@.len() % (dim as nat) == 0,
            centroids@.len() == k * dim,
            picks@.len() == n,
            least@.len() == n,
            tables.len() == j,
            forall|t: int|
                0 <= t < j ==> measured(*measure, row(centroids@, dim as nat, t), data@, #[trigger] tables[t])
                    && tables[t].len() == n,
            forall|r: int|
                0 <= r < n ==> (#[trigger] picks@[r] < j || picks@[r] == 0) && leads(
                    column(tables, r),
                    picks@[r] as int,
                    least@[r],
                ),
        decreases k - j,
    {
        proof {
            lemma_row_within(k as int, dim as int, j as int);
        }
        let d = distances(measure, row_of(centroids, dim, j), data);
        let ghost before = tables;
        let ghost grown = tables.push(d@);
        let mut i: usize = 0;
        while i < n
            invariant
                i <= n,
                j < k,
                d@.len() == n,
                picks@.len() == n,
                least@.len() == n,
                before.len() == j,
                grown == before.push(d@),
                forall|r: int|
                    i <= r < n ==> (#[trigger] picks@[r] < j || picks@[r] == 0) && leads(
                        column(before, r),
                        picks@[r] as int,
                        least@[r],
                    ),
                forall|r: int|
                    0 <= r < i ==> #[trigger] picks@[r] <= j && leads(column(grown, r), picks@[r] as int, least@[r]),
            decreases n - i,
        {
            let next: Scalar = d[i];
            proof {
                lemma_leads_push(column(before, i as int), picks@[i as int] as int, least@[i as int], next);
                assert(column(before, i as int).push(next) =~= column(grown, i as int));
                assert(picks@[i as int] < j || picks@[i as int] == 0);
            }
            if next.less(least[i]) {
                least.set(i, next);
                picks.set(i, j);
            }
            i = i + 1;
        }
        proof {
            tables = grown;
        }
        j = j + 1;
    }
    assert(assigned_by(*measure, data@, dim as nat, centroids@, k as nat, picks@, tables));
    picks
}

/// Whether two vectors are equally far apart whichever of them is a row of the
/// matrix.
pub open spec fn symmetric<M: Fn(&[Scalar], &[Scalar]) -> Vec<Scalar>>(measure: M, dim: nat) -> bool {
    forall|v: &[Scalar], m: &[Scalar], d: Vec<Scalar>, w: &[Scalar], n: &[Scalar], e: Vec<Scalar>, i: int, j: int|
        {
            &&& #[trigger] call_ensures(measure, (v, m), d)
            &&& #[trigger] call_ensures(measure, (w, n), e)
            &&& 0 <= i < d@.len()
            &&& 0 <= j < e@.len()
            &&& v@ == row(n@, dim, j)
            &&& w@ == row(m@, dim, i)
        } ==> #[trigger] d@[i] == #[trigger] e@[j]
}

/// Where distances are symmetric, a row is assigned to the centroid that is
/// nearest to it by itself.
pub proof fn law_rows_go_to_their_nearest_centroid<M: Fn(&[Scalar], &[Scalar]) -> Vec<Scalar>>(
    measure: M,
    data: Seq<Scalar>,
    dim: nat,
    centroids: Seq<Scalar>,
    k: nat,
    picks: Seq<usize>,
    i: int,
    distances: Seq<Scalar>,
    best: int,
)
    requires
        symmetric(measure, dim),
        assigned(measure, data, dim, centroids, k, picks),
        0 <= i < picks.len(),
        measured(measure, row(data, dim, i), centroids, distances),
        distances.len() == k,
        nearest(distances, best),
    ensures
        picks[i] == best,
{
    let tables = choose|tables: Seq<Seq<Scalar>>| #[trigger]
        assigned_by(measure, data, dim, centroids, k, picks, tables);
    let (w, n, e) = choose|w: &[Scalar], n: &[Scalar], e: Vec<Scalar>|
        w@ == row(data, dim, i) && n@ == centroids && e@ == distances && #[trigger] call_ensures(measure, (w, n), e);
    assert forall|j: int| 0 <= j < k implies column(tables, i)[j] == distances[j] by {
        assert(measured(measure, row(centroids, dim, j), data, tables[j]));
        let (v, m, d) = choose|v: &[Scalar], m: &[Scalar], d: Vec<Scalar>|
            v@ == row(centroids, dim, j) && m@ == data && d@ == tables[j] && #[trigger] call_ensures(
                measure,
                (v, m),
                d,
            );
        assert(d@[i] == e@[j]);
    }
    assert(column(tables, i) =~= distances);
    law_nearest_is_unique(distances, picks[i] as int, best);
}

} // verus!
