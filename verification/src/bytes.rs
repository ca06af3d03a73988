//! Small helpers for byte strings and for vectors of them.

use vstd::prelude::*;
use vstd::slice::slice_to_vec;

verus! {

/// The byte strings that a vector of byte vectors holds.
pub open spec fn byte_rows(rows: Seq<Vec<u8>>) -> Seq<Seq<u8>> {
    Seq::new(rows.len(), |i: int| rows[i]@)
}

/// Whether two byte strings are equal.
pub fn bytes_eq(a: &[u8], b: &[u8]) -> (r: bool)
    ensures
        r == (a@ == b@),
{
    if a.len() != b.len() {
        return false;
    }
    let mut i: usize = 0;
    while i < a.len()
        invariant
            i <= a.len(),
            a.len() == b.len(),
            forall|k: int| 0 <= k < i ==> a@[k] == b@[k],
        decreases a.len() - i,
    {
        if a[i] != b[i] {
            return false;
        }
        i += 1;
    }
    proof {
        assert(a@ =~= b@);
    }
    true
}

/// A copy of a byte string.
pub fn copy_bytes(src: &[u8]) -> (r: Vec<u8>)
    ensures
        r@ == src@,
{
    slice_to_vec(src)
}

/// Appending a row to a vector of byte vectors appends its bytes to the
/// byte strings that the vector holds.
pub proof fn lemma_byte_rows_push(rows: Seq<Vec<u8>>, row: Vec<u8>)
    ensures
        byte_rows(rows.push(row)) == byte_rows(rows).push(row@),
{
    assert(byte_rows(rows.push(row)) =~= byte_rows(rows).push(row@));
}

} // verus!
