//! Simplifying an already simplified polyline removes nothing.

use crate::filter::{kept_indices, lemma_kept_indices, retained};
use crate::simplify::{
    farthest, keep_mask, kept_within, lemma_farthest_is_first_maximum,
    lemma_first_maximum_is_farthest, lemma_kept_is_interior, sample_distance_sq,
};
use vstd::prelude::*;

verus! {

/// `(fx, fy)` holds the samples of `(x, y)` at the rising indices `at`.
pub open spec fn selects(
    x: Seq<i64>,
    y: Seq<i64>,
    fx: Seq<i64>,
    fy: Seq<i64>,
    at: Seq<int>,
) -> bool {
    &&& x.len() == y.len()
    &&& fx.len() == at.len()
    &&& fy.len() == at.len()
    &&& forall|j: int|
        0 <= j < at.len() ==> 0 <= #[trigger] at[j] < x.len() && fx[j] == x[at[j]] && fy[j] == y[at[j]]
    &&& forall|j: int, k: int| 0 <= j < k < at.len() ==> #[trigger] at[j] < #[trigger] at[k]
}

/// Within the selection, positions `a .. b` hold exactly the samples that
/// refinement of the range `s .. e` keeps, between its two ends.
pub open spec fn holds_refinement(
    x: Seq<i64>,
    y: Seq<i64>,
    eps: int,
    at: Seq<int>,
    s: int,
    e: int,
    a: int,
    b: int,
) -> bool {
    &&& 0 <= a <= b < at.len()
    &&& at[a] == s
    &&& at[b] == e
    &&& forall|j: int| a < j < b ==> kept_within(x, y, eps, s, e, #[trigger] at[j])
    &&& forall|i: int| #[trigger]
        kept_within(x, y, eps, s, e, i) ==> exists|j: int| a < j < b && #[trigger] at[j] == i
}

/// Refining the selected samples between positions `a` and `b` keeps every
/// one of them, when they are what refinement of `s .. e` kept.
pub proof fn lemma_refinement_repeats(
    x: Seq<i64>,
    y: Seq<i64>,
    fx: Seq<i64>,
    fy: Seq<i64>,
    at: Seq<int>,
    eps: int,
    s: int,
    e: int,
    a: int,
    b: int,
)
    requires
        selects(x, y, fx, fy, at),
        holds_refinement(x, y, eps, at, s, e, a, b),
    ensures
        forall|j: int| a < j < b ==> #[trigger] kept_within(fx, fy, eps, a, b, j),
    decreases e - s,
{
    if b - a > 1 {
        let first = at[a + 1];
        assert(kept_within(x, y, eps, s, e, first));
        let m = farthest(x, y, s, e, e);
        assert(s < m < e && sample_distance_sq(x, y, s, e, m) > eps * eps);
        assert(kept_within(x, y, eps, s, e, m));
        let jm = choose|j: int| a < j < b && #[trigger] at[j] == m;
        lemma_farthest_is_first_maximum(x, y, s, e, e);
        assert forall|j: int| a <= j <= b implies sample_distance_sq(fx, fy, a, b, j)
            == sample_distance_sq(x, y, s, e, #[trigger] at[j]) by {}
        assert forall|j: int| a <= j < b implies #[trigger] sample_distance_sq(fx, fy, a, b, j)
            <= sample_distance_sq(fx, fy, a, b, jm) by {
            if a < j {
                assert(at[a] < at[j]);
            }
            assert(at[j] < at[b]);
            assert(sample_distance_sq(fx, fy, a, b, j) == sample_distance_sq(x, y, s, e, at[j]));
        }
        assert forall|j: int| a <= j < jm implies #[trigger] sample_distance_sq(fx, fy, a, b, j)
            < sample_distance_sq(fx, fy, a, b, jm) by {
            if a < j {
                assert(at[a] < at[j]);
            }
            assert(at[j] < at[jm]);
            assert(sample_distance_sq(fx, fy, a, b, j) == sample_distance_sq(x, y, s, e, at[j]));
        }
        lemma_first_maximum_is_farthest(fx, fy, a, b, b, jm);
        assert(holds_refinement(x, y, eps, at, s, m, a, jm)) by {
            assert forall|j: int| a < j < jm implies kept_within(x, y, eps, s, m, #[trigger] at[j]) by {
                assert(at[j] < at[jm]);
                assert(kept_within(x, y, eps, s, e, at[j]));
                if kept_within(x, y, eps, m, e, at[j]) {
                    lemma_kept_is_interior(x, y, eps, m, e, at[j]);
                }
            }
            assert forall|i: int| #[trigger] kept_within(x, y, eps, s, m, i) implies exists|j: int|
                a < j < jm && #[trigger] at[j] == i by {
                lemma_kept_is_interior(x, y, eps, s, m, i);
                assert(kept_within(x, y, eps, s, e, i));
                let j = choose|j: int| a < j < b && #[trigger] at[j] == i;
                if jm <= j {
                    if jm < j {
                        assert(at[jm] < at[j]);
                    }
                }
                assert(a < j < jm && at[j] == i);
            }
        }
        assert(holds_refinement(x, y, eps, at, m, e, jm, b)) by {
            assert forall|j: int| jm < j < b implies kept_within(x, y, eps, m, e, #[trigger] at[j]) by {
                assert(at[jm] < at[j]);
                assert(kept_within(x, y, eps, s, e, at[j]));
                if kept_within(x, y, eps, s, m, at[j]) {
                    lemma_kept_is_interior(x, y, eps, s, m, at[j]);
                }
            }
            assert forall|i: int| #[trigger] kept_within(x, y, eps, m, e, i) implies exists|j: int|
                jm < j < b && #[trigger] at[j] == i by {
                lemma_kept_is_interior(x, y, eps, m, e, i);
                assert(kept_within(x, y, eps, s, e, i));
                let j = choose|j: int| a < j < b && #[trigger] at[j] == i;
                if j <= jm {
                    if j < jm {
                        assert(at[j] < at[jm]);
                    }
                }
                assert(jm < j < b && at[j] == i);
            }
        }
        lemma_refinement_repeats(x, y, fx, fy, at, eps, s, m, a, jm);
        lemma_refinement_repeats(x, y, fx, fy, at, eps, m, e, jm, b);
        assert forall|j: int| a < j < b implies #[trigger] kept_within(fx, fy, eps, a, b, j) by {
            assert(sample_distance_sq(fx, fy, a, b, jm) == sample_distance_sq(x, y, s, e, m));
            if j < jm {
                assert(kept_within(fx, fy, eps, a, jm, j));
            } else if j > jm {
                assert(kept_within(fx, fy, eps, jm, b, j));
            }
        }
    }
}

/// Simplification is idempotent: the samples that a keep-mask retains are all
/// kept when they are simplified again at the same tolerance.
pub proof fn lemma_simplify_idempotent(x: Seq<i64>, y: Seq<i64>, eps: int)
    requires
        x.len() == y.len(),
    ensures
        ({
            let mask = keep_mask(x, y, eps);
            let again = keep_mask(retained(x, mask), retained(y, mask), eps);
            forall|j: int| 0 <= j < again.len() ==> again[j]
        }),
{
    let mask = keep_mask(x, y, eps);
    let fx = retained(x, mask);
    let fy = retained(y, mask);
    let at = kept_indices(mask);
    let again = keep_mask(fx, fy, eps);
    let n = x.len() as int;
    let k = at.len() as int;
    lemma_kept_indices(mask);
    if k >= 3 {
        assert(mask[0] && mask[n - 1]);
        let first = choose|j: int| 0 <= j < k && #[trigger] at[j] == 0;
        let last = choose|j: int| 0 <= j < k && #[trigger] at[j] == n - 1;
        assert(first == 0) by {
            if first > 0 {
                assert(at[0] < at[first]);
            }
        }
        assert(last == k - 1) by {
            if last < k - 1 {
                assert(at[last] < at[k - 1]);
            }
        }
        assert(selects(x, y, fx, fy, at));
        assert(holds_refinement(x, y, eps, at, 0, n - 1, 0, k - 1)) by {
            assert forall|j: int| 0 < j < k - 1 implies kept_within(
                x,
                y,
                eps,
                0,
                n - 1,
                #[trigger] at[j],
            ) by {
                assert(at[0] < at[j]);
                assert(at[j] < at[k - 1]);
                assert(mask[at[j]]);
            }
            assert forall|i: int| #[trigger] kept_within(x, y, eps, 0, n - 1, i) implies exists|
                j: int,
            |
                0 < j < k - 1 && #[trigger] at[j] == i by {
                lemma_kept_is_interior(x, y, eps, 0, n - 1, i);
                assert(mask[i]);
                let j = choose|j: int| 0 <= j < k && #[trigger] at[j] == i;
                if j == 0 || j == k - 1 {
                    assert(at[j] == 0 || at[j] == n - 1);
                }
                assert(0 < j < k - 1 && at[j] == i);
            }
        }
        lemma_refinement_repeats(x, y, fx, fy, at, eps, 0, n - 1, 0, k - 1);
        assert forall|j: int| 0 <= j < again.len() implies again[j] by {
            if 0 < j < k - 1 {
                assert(kept_within(fx, fy, eps, 0, k - 1, j));
            }
        }
    }
}

} // verus!
