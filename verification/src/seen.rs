//! Which contents have been stored already, and where.

use std::collections::HashMap;
use vstd::prelude::*;

use crate::bytes::{get_le, le_value};
use crate::digest::same_digest;
use crate::index::{copy_segments, Segment};

verus! {

broadcast use vstd::std_specs::hash::group_hash_axioms;

/// A digest and the segments of the file that has it.
struct Seen {
    hash: [u8; 32],
    segments: Vec<Segment>,
}

/// From the digest of a file to its segments. Digests are found by their first
/// eight bytes.
pub struct SeenFiles {
    buckets: HashMap<u64, Vec<Seen>>,
    known: Ghost<Map<Seq<u8>, Seq<Segment>>>,
}

impl View for SeenFiles {
    type V = Map<Seq<u8>, Seq<Segment>>;

    closed spec fn view(&self) -> Map<Seq<u8>, Seq<Segment>> {
        self.known@
    }
}

/// Where a digest is looked for.
spec fn bucket_of(hash: Seq<u8>) -> u64 {
    le_value(hash.subrange(0, 8)) as u64
}

/// A bucket holds the digest, with these segments.
spec fn holds(bucket: Seq<Seen>, hash: Seq<u8>, segments: Seq<Segment>) -> bool {
    exists|i: int|
        0 <= i < bucket.len() && (#[trigger] bucket[i]).hash@ == hash && bucket[i].segments@
            == segments
}

fn bucket_for(hash: &[u8; 32]) -> (b: u64)
    ensures
        b == bucket_of(hash@),
{
    get_le(hash, 0, 8)
}

impl SeenFiles {
    /// What the buckets hold is what is known.
    pub closed spec fn wf(self) -> bool {
        &&& forall|h: Seq<u8>| #[trigger]
            self.known@.contains_key(h) ==> self.buckets@.contains_key(bucket_of(h)) && holds(
                self.buckets@[bucket_of(h)]@,
                h,
                self.known@[h],
            )
        &&& forall|b: u64, i: int|
            #![trigger self.buckets@[b]@[i]]
            self.buckets@.contains_key(b) && 0 <= i < self.buckets@[b]@.len() ==> {
                &&& self.known@.contains_key(self.buckets@[b]@[i].hash@)
                &&& self.known@[self.buckets@[b]@[i].hash@] == self.buckets@[b]@[i].segments@
            }
    }

    /// Nothing known.
    pub fn new() -> (s: SeenFiles)
        ensures
            s.wf(),
            s@ == Map::<Seq<u8>, Seq<Segment>>::empty(),
    {
        SeenFiles { buckets: HashMap::new(), known: Ghost(Map::empty()) }
    }

    /// The segments of the file with this digest, if there is one.
    pub fn get(&self, hash: &[u8; 32]) -> (r: Option<Vec<Segment>>)
        requires
            self.wf(),
        ensures
            match r {
                Some(segments) => self@.contains_key(hash@) && self@[hash@] == segments@,
                None => !self@.contains_key(hash@),
            },
    {
        let b = bucket_for(hash);
        match self.buckets.get(&b) {
            None => None,
            Some(bucket) => {
                let mut i: usize = 0;
                while i < bucket.len()
                    invariant
                        self.wf(),
                        b == bucket_of(hash@),
                        self.buckets@.contains_key(b),
                        self.buckets@[b] == *bucket,
                        i <= bucket@.len(),
                        forall|k: int| 0 <= k < i ==> (#[trigger] bucket@[k]).hash@ != hash@,
                    decreases bucket@.len() - i,
                {
                    if same_digest(&bucket[i].hash, hash) {
                        assert(self.buckets@[b]@[i as int].hash@ == hash@);
                        return Some(copy_segments(&bucket[i].segments));
                    }
                    i += 1;
                }
                None
            },
        }
    }

    /// Remember the segments of the file with this digest.
    pub fn insert(&mut self, hash: [u8; 32], segments: Vec<Segment>)
        requires
            old(self).wf(),
            !old(self)@.contains_key(hash@),
        ensures
            final(self).wf(),
            final(self)@ == old(self)@.insert(hash@, segments@),
    {
        let b = bucket_for(&hash);
        let ghost known0 = self.known@;
        let ghost buckets0 = self.buckets@;
        let mut bucket: Vec<Seen> = match self.buckets.remove(&b) {
            Some(bucket) => bucket,
            None => Vec::new(),
        };
        let ghost before = bucket@;
        let ghost segs = segments@;
        bucket.push(Seen { hash, segments });
        let ghost after = bucket@;
        self.buckets.insert(b, bucket);
        self.known = Ghost(self.known@.insert(hash@, segs));
        proof {
            assert forall|h: Seq<u8>| #[trigger] self.known@.contains_key(h) implies {
                &&& self.buckets@.contains_key(bucket_of(h))
                &&& holds(self.buckets@[bucket_of(h)]@, h, self.known@[h])
            } by {
                if h == hash@ {
                    assert(after[before.len() as int].hash@ == h);
                } else {
                    assert(known0.contains_key(h));
                    assert(buckets0.contains_key(bucket_of(h)));
                    let old_bucket = buckets0[bucket_of(h)]@;
                    assert(holds(old_bucket, h, known0[h]));
                    if bucket_of(h) == b {
                        let i = choose|i: int|
                            0 <= i < old_bucket.len() && (#[trigger] old_bucket[i]).hash@ == h
                                && old_bucket[i].segments@ == known0[h];
                        assert(after[i] == old_bucket[i]);
                    }
                }
            }
            assert forall|c: u64, i: int|
                #![trigger self.buckets@[c]@[i]]
                self.buckets@.contains_key(c) && 0 <= i < self.buckets@[c]@.len() implies {
                &&& self.known@.contains_key(self.buckets@[c]@[i].hash@)
                &&& self.known@[self.buckets@[c]@[i].hash@] == self.buckets@[c]@[i].segments@
            } by {
                if c == b {
                    if i < before.len() {
                        assert(buckets0.contains_key(b));
                        assert(buckets0[b]@[i] == after[i]);
                    }
                } else {
                    assert(buckets0[c]@[i] == self.buckets@[c]@[i]);
                }
            }
        }
    }
}

} // verus!
