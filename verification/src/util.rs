//! Helpers for opaque byte strings and deep views of vectors.

use vstd::prelude::*;

verus! {

/// Returns a fresh byte vector with the same contents as `v`.
pub fn clone_bytes(v: &Vec<u8>) -> (r: Vec<u8>)
    ensures
        r@ == v@,
{
    let mut r: Vec<u8> = Vec::new();
    let mut i: usize = 0;
    while i < v.len()
        invariant
            i <= v.len(),
            r@ == v@.subrange(0, i as int),
        decreases v.len() - i,
    {
        r.push(v[i]);
        i = i + 1;
        proof {
            assert(r@ =~= v@.subrange(0, i as int));
        }
    }
    proof {
        assert(r@ =~= v@);
    }
    r
}

/// Whether two byte vectors hold the same contents.
pub fn eq_bytes(a: &Vec<u8>, b: &Vec<u8>) -> (r: bool)
    ensures
        r == (a@ == b@),
{
    if a.len() != b.len() {
        return false;
    }
    let mut i: usize = 0;
    while i < a.len()
        invariant
            i <= a.len(),
            a.len() == b.len(),
            forall|j: int| 0 <= j < i ==> a@[j] == b@[j],
        decreases a.len() - i,
    {
        if a[i] != b[i] {
            return false;
        }
        i = i + 1;
    }
    proof {
        assert(a@ =~= b@);
    }
    true
}

/// The deep view of a byte vector is its view.
pub proof fn lemma_bytes_deep_view(v: Vec<u8>)
    ensures
        v.deep_view() == v@,
{
    assert(v.deep_view() =~= v@);
}

/// The deep view of a vector is the pointwise deep view of its elements.
pub proof fn lemma_deep_view_index<T: DeepView>(v: Vec<T>)
    ensures
        v.deep_view().len() == v@.len(),
        forall|i: int| 0 <= i < v@.len() ==> v.deep_view()[i] == v@[i].deep_view(),
{
    assert(v.deep_view().len() == v@.len());
    assert forall|i: int| 0 <= i < v@.len() implies v.deep_view()[i] == v@[i].deep_view() by {
        assert(v.deep_view()[i] == v@[i].deep_view());
    }
}

} // verus!
