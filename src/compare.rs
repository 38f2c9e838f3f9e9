use vstd::prelude::*;

verus! {

/// The first position at which `a` and `b` differ: the length of the shorter
/// buffer when one is a prefix of the other, and the common length when they
/// are equal.
pub fn first_mismatch(a: Vec<u8>, b: Vec<u8>) -> (r: usize)
    ensures
        r <= a@.len(),
        r <= b@.len(),
        forall|j: int| 0 <= j < r ==> a@[j] == b@[j],
        r < a@.len() && r < b@.len() ==> a@[r as int] != b@[r as int],
{
    let longest = if a.len() > b.len() { a.len() } else { b.len() };
    let mut i: usize = 0;
    while i < longest
        invariant
            longest == if a@.len() > b@.len() { a@.len() } else { b@.len() },
            i <= longest,
            i <= a@.len(),
            i <= b@.len(),
            forall|j: int| 0 <= j < i ==> a@[j] == b@[j],
        decreases longest - i,
    {
        if i >= a.len() || i >= b.len() {
            return i;
        }
        let av = a[i];
        let bv = b[i];
        if av != bv {
            return i;
        }
        i = i + 1;
    }
    longest
}

} // verus!
