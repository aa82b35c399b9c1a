//! A set of content hashes.

use std::collections::HashMap;

use vstd::prelude::*;

use crate::order::{be_u64, bytes_eq};

verus! {

broadcast use vstd::std_specs::hash::group_hash_axioms;

/// A set of 32-byte content hashes, kept in buckets by their first eight bytes.
pub struct ContentHashSet {
    buckets: HashMap<u64, Vec<[u8; 32]>>,
}

spec fn bucket_key(hash: Seq<u8>) -> u64 {
    crate::order::be_value(hash.subrange(0, 8)) as u64
}

spec fn bucket_holds(bucket: Seq<[u8; 32]>, hash: Seq<u8>) -> bool {
    exists|i: int| 0 <= i < bucket.len() && (#[trigger] bucket[i])@ == hash
}

impl View for ContentHashSet {
    type V = Set<Seq<u8>>;

    closed spec fn view(&self) -> Set<Seq<u8>> {
        Set::new(
            |hash: Seq<u8>|
                self.buckets@.contains_key(bucket_key(hash)) && bucket_holds(
                    self.buckets@[bucket_key(hash)]@,
                    hash,
                ),
        )
    }
}

impl ContentHashSet {
    /// The empty set.
    pub fn new() -> (r: Self)
        ensures
            r@ == Set::<Seq<u8>>::empty(),
    {
        let r = ContentHashSet { buckets: HashMap::new() };
        assert(r@ =~= Set::<Seq<u8>>::empty());
        r
    }

    /// Whether the set has `hash`.
    pub fn contains(&self, hash: &[u8; 32]) -> (r: bool)
        ensures
            r == self@.contains(hash@),
    {
        let key: u64 = be_u64(hash.as_slice());
        match self.buckets.get(&key) {
            None => false,
            Some(bucket) => Self::bucket_contains(bucket, hash),
        }
    }

    fn bucket_contains(bucket: &Vec<[u8; 32]>, hash: &[u8; 32]) -> (r: bool)
        ensures
            r == bucket_holds(bucket@, hash@),
    {
        let mut i: usize = 0;
        while i < bucket.len()
            invariant
                i <= bucket.len(),
                forall|j: int| 0 <= j < i ==> (#[trigger] bucket@[j])@ != hash@,
            decreases bucket.len() - i,
        {
            if bytes_eq(bucket[i].as_slice(), hash.as_slice()) {
                return true;
            }
            i = i + 1;
        }
        false
    }

    /// Adds `hash` to the set.
    pub fn insert(&mut self, hash: &[u8; 32])
        ensures
            final(self)@ == old(self)@.insert(hash@),
    {
        let key: u64 = be_u64(hash.as_slice());
        let mut bucket = match self.buckets.remove(&key) {
            None => Vec::new(),
            Some(bucket) => bucket,
        };
        let ghost before = bucket@;
        if !Self::bucket_contains(&bucket, hash) {
            bucket.push(*hash);
        }
        let ghost after = bucket@;
        self.buckets.insert(key, bucket);
        proof {
            assert forall|h: Seq<u8>| bucket_holds(after, h) <==> bucket_holds(before, h) || h
                == hash@ by {
                if bucket_holds(before, h) {
                    let i: int = choose|i: int|
                        0 <= i < before.len() && (#[trigger] before[i])@ == h;
                    assert(after[i] == before[i]);
                }
                if h == hash@ && !bucket_holds(before, h) {
                    assert(after[after.len() - 1]@ == h);
                }
                if bucket_holds(after, h) && h != hash@ {
                    let i: int = choose|i: int| 0 <= i < after.len() && (#[trigger] after[i])@ == h;
                    assert(i < before.len());
                    assert(after[i] == before[i]);
                }
            }
            assert(self@ =~= old(self)@.insert(hash@));
        }
    }
}

/// A new set is empty. A hash that was added is in the set, and whether any other is does not
/// change.
pub proof fn set_holds_what_was_added(
    empty: ContentHashSet,
    set: &mut ContentHashSet,
    added: &[u8; 32],
    other: &[u8; 32],
    r: (bool, bool, bool),
)
    requires
        call_ensures(ContentHashSet::new, (), empty),
        call_ensures(ContentHashSet::insert, (set, added), ()),
        call_ensures(ContentHashSet::contains, (&empty, other), r.0),
        call_ensures(ContentHashSet::contains, (&*old(set), other), r.1),
        call_ensures(ContentHashSet::contains, (&*final(set), other), r.2),
    ensures
        !r.0,
        other@ == added@ ==> r.2,
        other@ != added@ ==> r.2 == r.1,
        forall|hash: Seq<u8>| !#[trigger] empty@.contains(hash),
        r.2 <==> final(set)@.contains(other@),
{
}

} // verus!
