//! Small verified helpers shared across the library.

use vstd::prelude::*;

verus! {

/// Whether two byte vectors hold the same bytes.
pub fn bytes_eq(a: &Vec<u8>, b: &Vec<u8>) -> (r: bool)
    ensures
        r == (a@ == b@),
{
    if a.len() != b.len() {
        assert(a@ != b@);
        return false;
    }
    let mut i: usize = 0;
    while i < a.len()
        invariant
            i <= a@.len(),
            a@.len() == b@.len(),
            forall|k: int| 0 <= k < i ==> a@[k] == b@[k],
        decreases a@.len() - i,
    {
        if a[i] != b[i] {
            assert(a@ != b@);
            return false;
        }
        i = i + 1;
    }
    assert(a@ =~= b@);
    true
}

/// The bytes each vector in a list holds, as one sequence of byte sequences.
pub open spec fn id_seq(list: Seq<Vec<u8>>) -> Seq<Seq<u8>> {
    list.map_values(|v: Vec<u8>| v@)
}

/// No two vectors in the list hold the same bytes.
pub open spec fn no_dup_ids(list: Seq<Vec<u8>>) -> bool {
    forall|k1: int, k2: int|
        0 <= k1 < k2 < id_seq(list).len() ==> id_seq(list)[k1] != id_seq(list)[k2]
}

/// One pairwise instance of `no_dup_ids`.
pub proof fn lemma_no_dup_index(list: Seq<Vec<u8>>, a: int, b: int)
    requires
        no_dup_ids(list),
        0 <= a < b < id_seq(list).len(),
    ensures
        id_seq(list)[a] != id_seq(list)[b],
{
}

/// Whether a list of byte vectors holds one with these bytes.
pub fn bytes_vec_contains(list: &Vec<Vec<u8>>, id: &Vec<u8>) -> (r: bool)
    ensures
        r == id_seq(list@).contains(id@),
{
    let ghost ids = id_seq(list@);
    let mut i: usize = 0;
    while i < list.len()
        invariant
            i <= list@.len(),
            ids == id_seq(list@),
            forall|k: int| 0 <= k < i ==> ids[k] != id@,
        decreases list@.len() - i,
    {
        if bytes_eq(&list[i], id) {
            assert(ids[i as int] == id@);
            return true;
        }
        i = i + 1;
    }
    assert(forall|k: int| 0 <= k < ids.len() ==> ids[k] != id@);
    false
}

} // verus!
