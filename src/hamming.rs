//! Hamming distance between boolean vectors.
use vstd::prelude::*;

verus! {

/// Number of positions below `k` at which `a` and `b` differ.
pub open spec fn hamming_upto(a: Seq<bool>, b: Seq<bool>, k: int) -> nat
    decreases k,
{
    if k <= 0 {
        0
    } else {
        hamming_upto(a, b, k - 1) + if a[k - 1] != b[k - 1] { 1nat } else { 0nat }
    }
}

/// Number of coordinates at which `a` and `b` differ.
pub open spec fn hamming(a: Seq<bool>, b: Seq<bool>) -> nat {
    hamming_upto(a, b, a.len() as int)
}

/// Hamming distance of two vectors of equal length.
pub fn hamming_distance(a: &Vec<bool>, b: &Vec<bool>) -> (r: usize)
    requires
        a.len() == b.len(),
    ensures
        r == hamming(a@, b@),
{
    let mut d: usize = 0;
    let mut i: usize = 0;
    while i < a.len()
        invariant
            i <= a.len(),
            a.len() == b.len(),
            d == hamming_upto(a@, b@, i as int),
            d <= i,
        decreases a.len() - i,
    {
        if a[i] != b[i] {
            d = d + 1;
        }
        i = i + 1;
    }
    d
}

} // verus!
