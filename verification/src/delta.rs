//! Delta encoding: a sequence as first differences, and back.
//!
//! The model is over mathematical integers, where the two transforms are
//! inverse to each other without exception. The executable functions work on
//! `i64` and `u64` and report an error wherever the model's result does not
//! fit the element type; they never wrap.

use crate::error::InvalidArgument;
use vstd::prelude::*;

verus! {

/// First differences of `s` against an implicit zero before the first entry.
pub open spec fn deltas(s: Seq<int>) -> Seq<int> {
    Seq::new(
        s.len(),
        |i: int|
            if i == 0 {
                s[0]
            } else {
                s[i] - s[i - 1]
            },
    )
}

/// Sum of the first `n` entries of `d`.
pub open spec fn running_sum(d: Seq<int>, n: int) -> int
    recommends
        n <= d.len(),
    decreases n,
{
    if n <= 0 {
        0
    } else {
        running_sum(d, n - 1) + d[n - 1]
    }
}

/// Cumulative sums of `d`.
pub open spec fn prefix_sums(d: Seq<int>) -> Seq<int> {
    Seq::new(d.len(), |i: int| running_sum(d, i + 1))
}

/// Every entry of `s` lies in `lo ..= hi`.
pub open spec fn all_within(s: Seq<int>, lo: int, hi: int) -> bool {
    forall|i: int| 0 <= i < s.len() ==> lo <= #[trigger] s[i] <= hi
}

/// Every entry of `s` fits an `i64`.
pub open spec fn fits_i64(s: Seq<int>) -> bool {
    all_within(s, i64::MIN as int, i64::MAX as int)
}

/// Every entry of `s` fits a `u64`.
pub open spec fn fits_u64(s: Seq<int>) -> bool {
    all_within(s, 0, u64::MAX as int)
}

/// The signed sequence `s` as mathematical integers.
pub open spec fn signed_ints(s: Seq<i64>) -> Seq<int> {
    Seq::new(s.len(), |i: int| s[i] as int)
}

/// The unsigned sequence `s` as mathematical integers.
pub open spec fn unsigned_ints(s: Seq<u64>) -> Seq<int> {
    Seq::new(s.len(), |i: int| s[i] as int)
}

/// No entry of `s` is smaller than the one before it.
pub open spec fn non_decreasing(s: Seq<u64>) -> bool {
    forall|i: int| 0 < i < s.len() ==> s[i - 1] <= #[trigger] s[i]
}

/// The running sum of first differences telescopes to the entry itself.
pub proof fn lemma_running_sum_of_deltas(s: Seq<int>, i: int)
    requires
        0 <= i < s.len(),
    ensures
        running_sum(deltas(s), i + 1) == s[i],
    decreases i,
{
    let d = deltas(s);
    assert(running_sum(d, i + 1) == running_sum(d, i) + d[i]);
    if i > 0 {
        lemma_running_sum_of_deltas(s, i - 1);
    } else {
        assert(running_sum(d, 0) == 0);
    }
}

/// Decoding inverts encoding: the cumulative sums of the first differences of
/// any integer sequence are the sequence itself.
pub proof fn lemma_decode_inverts_encode(s: Seq<int>)
    ensures
        prefix_sums(deltas(s)) == s,
{
    assert forall|i: int| 0 <= i < s.len() implies prefix_sums(deltas(s))[i] == s[i] by {
        lemma_running_sum_of_deltas(s, i);
    }
    assert(prefix_sums(deltas(s)) =~= s);
}

/// Encoding inverts decoding: the first differences of the cumulative sums of
/// any integer sequence are the sequence itself.
pub proof fn lemma_encode_inverts_decode(d: Seq<int>)
    ensures
        deltas(prefix_sums(d)) == d,
{
    assert forall|i: int| 0 <= i < d.len() implies deltas(prefix_sums(d))[i] == d[i] by {
        if i == 0 {
            assert(running_sum(d, 0) == 0);
        }
    }
    assert(deltas(prefix_sums(d)) =~= d);
}

/// What `encode_i64` returns decodes again: where `d` holds the first
/// differences of `s`, every running sum of `d` fits an `i64`, and `s` is the
/// only sequence that has those sums.
pub proof fn lemma_round_trip_i64(s: Seq<i64>, d: Seq<i64>)
    requires
        signed_ints(d) == deltas(signed_ints(s)),
    ensures
        fits_i64(prefix_sums(signed_ints(d))),
        prefix_sums(signed_ints(d)) == signed_ints(s),
        forall|t: Seq<i64>| #[trigger] signed_ints(t) == signed_ints(s) ==> t == s,
{
    lemma_decode_inverts_encode(signed_ints(s));
    assert forall|t: Seq<i64>| #[trigger] signed_ints(t) == signed_ints(s) implies t == s by {
        assert(t.len() == signed_ints(t).len());
        assert(s.len() == signed_ints(s).len());
        assert forall|i: int| 0 <= i < s.len() implies t[i] == s[i] by {
            assert(signed_ints(t)[i] == t[i] as int);
            assert(signed_ints(s)[i] == s[i] as int);
        }
        assert(t =~= s);
    }
}

/// What `encode_u64` returns decodes again: where `d` holds the first
/// differences of `s`, every running sum of `d` fits a `u64`, and `s` is the
/// only sequence that has those sums.
pub proof fn lemma_round_trip_u64(s: Seq<u64>, d: Seq<u64>)
    requires
        unsigned_ints(d) == deltas(unsigned_ints(s)),
    ensures
        fits_u64(prefix_sums(unsigned_ints(d))),
        prefix_sums(unsigned_ints(d)) == unsigned_ints(s),
        forall|t: Seq<u64>| #[trigger] unsigned_ints(t) == unsigned_ints(s) ==> t == s,
{
    lemma_decode_inverts_encode(unsigned_ints(s));
    assert forall|t: Seq<u64>| #[trigger] unsigned_ints(t) == unsigned_ints(s) implies t == s by {
        assert(t.len() == unsigned_ints(t).len());
        assert(s.len() == unsigned_ints(s).len());
        assert forall|i: int| 0 <= i < s.len() implies t[i] == s[i] by {
            assert(unsigned_ints(t)[i] == t[i] as int);
            assert(unsigned_ints(s)[i] == s[i] as int);
        }
        assert(t =~= s);
    }
}

/// Delta-encodes a signed sequence.
///
/// Succeeds exactly when every first difference fits an `i64`.
pub fn encode_i64(seq: &[i64]) -> (r: Result<Vec<i64>, InvalidArgument>)
    ensures
        r is Ok <==> fits_i64(deltas(signed_ints(seq@))),
        r matches Ok(d) ==> signed_ints(d@) == deltas(signed_ints(seq@)),
        r matches Err(e) ==> e == InvalidArgument::OutOfRange,
{
    let ghost model = deltas(signed_ints(seq@));
    let mut out: Vec<i64> = Vec::with_capacity(seq.len());
    let mut last: i64 = 0;
    let mut i: usize = 0;
    while i < seq.len()
        invariant
            i <= seq.len(),
            model == deltas(signed_ints(seq@)),
            out@.len() == i,
            last as int == (if i == 0 {
                0
            } else {
                seq@[i - 1] as int
            }),
            forall|j: int| 0 <= j < i ==> out@[j] as int == #[trigger] model[j],
        decreases seq.len() - i,
    {
        let v = seq[i];
        assert(model[i as int] == v as int - last as int);
        match v.checked_sub(last) {
            Some(d) => out.push(d),
            None => {
                return Err(InvalidArgument::OutOfRange);
            },
        }
        last = v;
        i += 1;
    }
    assert(signed_ints(out@) =~= model);
    Ok(out)
}

/// Rebuilds a signed sequence from its first differences.
///
/// Succeeds exactly when every cumulative sum fits an `i64`.
pub fn decode_i64(deltas: &[i64]) -> (r: Result<Vec<i64>, InvalidArgument>)
    ensures
        r is Ok <==> fits_i64(prefix_sums(signed_ints(deltas@))),
        r matches Ok(s) ==> signed_ints(s@) == prefix_sums(signed_ints(deltas@)),
        r matches Err(e) ==> e == InvalidArgument::OutOfRange,
{
    let ghost model = prefix_sums(signed_ints(deltas@));
    let mut out: Vec<i64> = Vec::with_capacity(deltas.len());
    let mut sum: i64 = 0;
    let mut i: usize = 0;
    while i < deltas.len()
        invariant
            i <= deltas.len(),
            model == prefix_sums(signed_ints(deltas@)),
            out@.len() == i,
            sum as int == running_sum(signed_ints(deltas@), i as int),
            forall|j: int| 0 <= j < i ==> out@[j] as int == #[trigger] model[j],
        decreases deltas.len() - i,
    {
        assert(model[i as int] == sum as int + deltas@[i as int] as int);
        match sum.checked_add(deltas[i]) {
            Some(v) => {
                sum = v;
            },
            None => {
                return Err(InvalidArgument::OutOfRange);
            },
        }
        out.push(sum);
        i += 1;
    }
    assert(signed_ints(out@) =~= model);
    Ok(out)
}

/// Delta-encodes an unsigned sequence.
///
/// Succeeds exactly when the sequence never decreases, which is when every
/// first difference is itself unsigned.
pub fn encode_u64(seq: &[u64]) -> (r: Result<Vec<u64>, InvalidArgument>)
    ensures
        r is Ok <==> non_decreasing(seq@),
        r matches Ok(d) ==> unsigned_ints(d@) == deltas(unsigned_ints(seq@)),
        r matches Err(e) ==> e == InvalidArgument::Decreasing,
{
    let ghost model = deltas(unsigned_ints(seq@));
    let mut out: Vec<u64> = Vec::with_capacity(seq.len());
    let mut last: u64 = 0;
    let mut i: usize = 0;
    while i < seq.len()
        invariant
            i <= seq.len(),
            model == deltas(unsigned_ints(seq@)),
            out@.len() == i,
            last as int == (if i == 0 {
                0
            } else {
                seq@[i - 1] as int
            }),
            forall|j: int| 0 <= j < i ==> out@[j] as int == #[trigger] model[j],
            forall|j: int| 0 < j < i ==> seq@[j - 1] <= #[trigger] seq@[j],
        decreases seq.len() - i,
    {
        let v = seq[i];
        assert(model[i as int] == v as int - last as int);
        if v < last {
            assert(seq@[i as int - 1] > seq@[i as int]);
            return Err(InvalidArgument::Decreasing);
        }
        out.push(v - last);
        last = v;
        i += 1;
    }
    assert(unsigned_ints(out@) =~= model);
    Ok(out)
}

/// Rebuilds an unsigned sequence from its first differences.
///
/// Succeeds exactly when every cumulative sum fits a `u64`.
pub fn decode_u64(deltas: &[u64]) -> (r: Result<Vec<u64>, InvalidArgument>)
    ensures
        r is Ok <==> fits_u64(prefix_sums(unsigned_ints(deltas@))),
        r matches Ok(s) ==> unsigned_ints(s@) == prefix_sums(unsigned_ints(deltas@)),
        r matches Err(e) ==> e == InvalidArgument::OutOfRange,
{
    let ghost model = prefix_sums(unsigned_ints(deltas@));
    let mut out: Vec<u64> = Vec::with_capacity(deltas.len());
    let mut sum: u64 = 0;
    let mut i: usize = 0;
    while i < deltas.len()
        invariant
            i <= deltas.len(),
            model == prefix_sums(unsigned_ints(deltas@)),
            out@.len() == i,
            sum as int == running_sum(unsigned_ints(deltas@), i as int),
            forall|j: int| 0 <= j < i ==> out@[j] as int == #[trigger] model[j],
        decreases deltas.len() - i,
    {
        assert(model[i as int] == sum as int + deltas@[i as int] as int);
        match sum.checked_add(deltas[i]) {
            Some(v) => {
                sum = v;
            },
            None => {
                return Err(InvalidArgument::OutOfRange);
            },
        }
        out.push(sum);
        i += 1;
    }
    assert(unsigned_ints(out@) =~= model);
    Ok(out)
}

} // verus!
