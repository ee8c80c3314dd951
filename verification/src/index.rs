//! A hash index over the items of a growing list.
//!
//! The index knows each item by its position in the list and by a 64-bit
//! hash. Asked for a hash, it names the positions of the items that have it,
//! so that a search by content has to look at those items only.

use std::collections::HashMap;
use vstd::prelude::*;

verus! {

broadcast use vstd::std_specs::hash::group_hash_axioms;

/// The positions that a hash is filed under.
pub struct HashIndex {
    buckets: HashMap<u64, Vec<usize>>,
    hashes: Ghost<Seq<u64>>,
}

/// `found` names items of hash `h` only, and every item of hash `h`.
pub open spec fn files(hashes: Seq<u64>, h: u64, found: Seq<usize>) -> bool {
    &&& forall|k: int|
        0 <= k < found.len() ==> (#[trigger] found[k]) < hashes.len() && hashes[found[k] as int]
            == h
    &&& forall|i: int|
        0 <= i < hashes.len() && #[trigger] hashes[i] == h ==> exists|k: int|
            0 <= k < found.len() && #[trigger] found[k] == i
}

impl View for HashIndex {
    type V = Seq<u64>;

    /// The hash of each item, in the order of the list.
    closed spec fn view(&self) -> Seq<u64> {
        self.hashes@
    }
}

impl HashIndex {
    /// Every hash in use has its positions filed, and nothing else is filed.
    pub closed spec fn wf(&self) -> bool {
        &&& forall|h: u64|
            self.buckets@.contains_key(h) ==> files(self.hashes@, h, #[trigger] self.buckets@[h]@)
        &&& forall|i: int|
            0 <= i < self.hashes@.len() ==> self.buckets@.contains_key(#[trigger] self.hashes@[i])
    }

    /// The index of the empty list.
    pub fn new() -> (index: HashIndex)
        ensures
            index.wf(),
            index@ == Seq::<u64>::empty(),
    {
        HashIndex { buckets: HashMap::new(), hashes: Ghost(Seq::empty()) }
    }

    /// Files the next item of the list, which has hash `h` and stands at
    /// position `at`.
    pub fn add(&mut self, h: u64, at: usize)
        requires
            old(self).wf(),
            at == old(self)@.len(),
        ensures
            final(self).wf(),
            final(self)@ == old(self)@.push(h),
    {
        let ghost hashes = self.hashes@;
        let mut bucket: Vec<usize> = match self.buckets.remove(&h) {
            Some(b) => b,
            None => Vec::new(),
        };
        let ghost old_bucket = bucket@;
        assert(files(hashes, h, old_bucket));
        bucket.push(at);
        proof {
            let after = hashes.push(h);
            assert forall|i: int| 0 <= i < after.len() && #[trigger] after[i] == h implies exists|
                k: int,
            |
                0 <= k < bucket@.len() && #[trigger] bucket@[k] == i by {
                if i < hashes.len() {
                    let k = choose|k: int|
                        0 <= k < old_bucket.len() && #[trigger] old_bucket[k] == i;
                    assert(bucket@[k] == i);
                } else {
                    assert(bucket@[old_bucket.len() as int] == i);
                }
            }
        }
        self.buckets.insert(h, bucket);
        self.hashes = Ghost(hashes.push(h));
    }

    /// The positions of the items that have hash `h`, if there is any.
    pub fn lookup(&self, h: u64) -> (found: Option<&Vec<usize>>)
        requires
            self.wf(),
        ensures
            match found {
                Some(bucket) => files(self@, h, bucket@),
                None => forall|i: int| 0 <= i < self@.len() ==> self@[i] != h,
            },
    {
        self.buckets.get(&h)
    }
}

} // verus!
