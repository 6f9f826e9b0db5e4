//! Applying a keep-mask to a sequence.

use crate::error::InvalidArgument;
use vstd::prelude::*;

verus! {

/// The indices at which `mask` is `true`, in rising order.
pub open spec fn kept_indices(mask: Seq<bool>) -> Seq<int>
    decreases mask.len(),
{
    if mask.len() == 0 {
        Seq::empty()
    } else if mask.last() {
        kept_indices(mask.drop_last()).push(mask.len() - 1)
    } else {
        kept_indices(mask.drop_last())
    }
}

/// The entries of `values` at the indices that `mask` keeps, in the order
/// they stand in.
pub open spec fn retained<T>(values: Seq<T>, mask: Seq<bool>) -> Seq<T> {
    Seq::new(kept_indices(mask).len(), |j: int| values[kept_indices(mask)[j]])
}

/// `kept_indices` lists exactly the `true` positions, each once, rising.
pub proof fn lemma_kept_indices(mask: Seq<bool>)
    ensures
        kept_indices(mask).len() <= mask.len(),
        forall|j: int|
            0 <= j < kept_indices(mask).len() ==> 0 <= #[trigger] kept_indices(mask)[j] < mask.len()
                && mask[kept_indices(mask)[j]],
        forall|j: int, k: int|
            0 <= j < k < kept_indices(mask).len() ==> #[trigger] kept_indices(mask)[j]
                < #[trigger] kept_indices(mask)[k],
        forall|i: int|
            0 <= i < mask.len() && #[trigger] mask[i] ==> exists|j: int|
                0 <= j < kept_indices(mask).len() && #[trigger] kept_indices(mask)[j] == i,
    decreases mask.len(),
{
    if mask.len() > 0 {
        let front = mask.drop_last();
        lemma_kept_indices(front);
        let inner = kept_indices(front);
        let all = kept_indices(mask);
        assert forall|i: int| 0 <= i < mask.len() && #[trigger] mask[i] implies exists|j: int|
            0 <= j < all.len() && #[trigger] all[j] == i by {
            if i < mask.len() - 1 {
                assert(front[i]);
                let j = choose|j: int| 0 <= j < inner.len() && #[trigger] inner[j] == i;
                assert(all[j] == i);
            } else {
                assert(all[all.len() - 1] == i);
            }
        }
    }
}

/// Copies the entries of `values` that `mask` keeps, in order.
///
/// Fails exactly when the mask and the values differ in length.
pub fn filter<T: Copy>(values: &[T], mask: &[bool]) -> (r: Result<Vec<T>, InvalidArgument>)
    ensures
        r is Ok <==> values.len() == mask.len(),
        r matches Ok(kept) ==> kept@ == retained(values@, mask@),
        r matches Err(e) ==> e == InvalidArgument::LengthMismatch,
{
    if values.len() != mask.len() {
        return Err(InvalidArgument::LengthMismatch);
    }
    let mut out: Vec<T> = Vec::new();
    let mut i: usize = 0;
    assert(mask@.take(0) =~= Seq::<bool>::empty());
    while i < values.len()
        invariant
            i <= values.len(),
            values.len() == mask.len(),
            out@ == retained(values@, mask@.take(i as int)),
        decreases values.len() - i,
    {
        proof {
            assert(mask@.take(i + 1).drop_last() =~= mask@.take(i as int));
            lemma_kept_indices(mask@.take(i as int));
        }
        if mask[i] {
            out.push(values[i]);
        }
        assert(out@ =~= retained(values@, mask@.take(i + 1)));
        i += 1;
    }
    assert(mask@.take(i as int) =~= mask@);
    Ok(out)
}

} // verus!
