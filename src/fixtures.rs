//! Quickly generate a collection of N hashed values whose computed DHT
//! locations are evenly distributed across the space of u32 values.
use vstd::prelude::*;
use arbitrary::Unstructured;
use crate::coords::rectify_index;
use crate::region_data::OpHash;

verus! {

#[verifier::external_type_specification]
#[verifier::external_body]
pub struct ExUnstructured<'a>(Unstructured<'a>);

/// Relies on `arbitrary::Unstructured::fill_buffer`: it takes up to 32 bytes
/// of the remaining data, pads with zeros, and reports no error.
#[verifier::external_body]
fn draw_hash(u: &mut Unstructured) -> (r: Option<OpHash>) {
    let mut b = [0u8; 32];
    match u.fill_buffer(&mut b) {
        Ok(()) => Some(OpHash(b)),
        Err(_) => None,
    }
}

/// Relies on `arbitrary::Unstructured::len`: how many bytes of data remain.
#[verifier::external_body]
fn remaining_len(u: &Unstructured) -> (r: usize) {
    u.len()
}

/// The number of locations in the ring.
pub const RING_SIZE: u64 = 0x1_0000_0000;

/// Width of each of `num` equal buckets of the ring: `⌊2^32 / num⌋`.
pub open spec fn bucket_width(num: int) -> int {
    RING_SIZE as int / num
}

/// The bucket that location `loc` falls in; a value of `num` or more lies in
/// the remainder past the last bucket.
pub open spec fn bucket_of(loc: u32, num: int) -> int {
    loc as int / bucket_width(num)
}

/// Buckets have positive width, and every location a bucket number of at
/// least zero.
pub proof fn lemma_bucket_bounds(loc: u32, num: int)
    requires
        0 < num <= u32::MAX,
    ensures
        bucket_width(num) >= 1,
        bucket_of(loc, num) >= 0,
{
    assert(bucket_width(num) >= 1) by (nonlinear_arith)
        requires
            0 < num <= u32::MAX,
    {
        vstd::arithmetic::div_mod::lemma_div_is_ordered(num, RING_SIZE as int, num);
        vstd::arithmetic::div_mod::lemma_div_by_self(num);
    }
    vstd::arithmetic::div_mod::lemma_div_pos_is_pos(loc as int, bucket_width(num));
}

/// A location on the DHT ring.
#[derive(Clone, Copy, Debug, PartialEq, Eq, Structural)]
pub struct DhtLocation(pub u32);

impl DhtLocation {
    pub fn new(loc: u32) -> (r: Self)
        ensures
            r.0 == loc,
    {
        DhtLocation(loc)
    }

    pub fn to_u32(&self) -> (r: u32)
        ensures
            r == self.0,
    {
        self.0
    }
}

/// Buckets being filled: each holds the first item offered for it, with the
/// location that placed it there.
pub struct FixtureBuckets {
    pub num: usize,
    pub slots: Vec<Option<(OpHash, u32)>>,
    pub filled: usize,
}

/// The item that a filled slot holds.
pub open spec fn slot_item(s: Option<(OpHash, u32)>) -> OpHash {
    let p = s->0;
    p.0
}

/// The number of filled slots among the first `k`.
pub open spec fn count_filled(slots: Seq<Option<(OpHash, u32)>>, k: int) -> int
    decreases k,
{
    if k <= 0 {
        0
    } else {
        count_filled(slots, k - 1) + if slots[k - 1] is Some { 1int } else { 0int }
    }
}

proof fn lemma_count_filled_update(s: Seq<Option<(OpHash, u32)>>, i: int, v: Option<(OpHash, u32)>, k: int)
    requires
        0 <= i < s.len(),
        0 <= k <= s.len(),
        s[i] is None,
        v is Some,
    ensures
        count_filled(s.update(i, v), k) == count_filled(s, k) + if i < k { 1int } else { 0int },
    decreases k,
{
    if k > 0 {
        lemma_count_filled_update(s, i, v, k - 1);
    }
}

proof fn lemma_count_filled_bounds(s: Seq<Option<(OpHash, u32)>>, k: int)
    requires
        0 <= k <= s.len(),
    ensures
        0 <= count_filled(s, k) <= k,
        count_filled(s, k) == k ==> forall|j: int| 0 <= j < k ==> (#[trigger] s[j]) is Some,
    decreases k,
{
    if k > 0 {
        lemma_count_filled_bounds(s, k - 1);
    }
}

impl FixtureBuckets {
    pub open spec fn wf(&self) -> bool {
        &&& 0 < self.num <= u32::MAX
        &&& self.slots@.len() == self.num
        &&& self.filled == count_filled(self.slots@, self.num as int)
        &&& forall|i: int|
            0 <= i < self.num ==> (#[trigger] self.slots@[i] matches Some(p) ==> bucket_of(p.1, self.num as int)
                == i)
    }

    /// `num` empty buckets.
    pub fn new(num: usize) -> (r: Self)
        requires
            0 < num <= u32::MAX,
        ensures
            r.wf(),
            r.num == num,
            r.filled == 0,
            forall|i: int| 0 <= i < num ==> (#[trigger] r.slots@[i]) is None,
    {
        let mut slots: Vec<Option<(OpHash, u32)>> = Vec::new();
        let mut i: usize = 0;
        while i < num
            invariant
                i <= num,
                slots@.len() == i,
                forall|j: int| 0 <= j < i ==> (#[trigger] slots@[j]) is None,
            decreases num - i,
        {
            slots.push(None);
            i = i + 1;
        }
        proof {
            assert forall|k: int| 0 <= k <= num implies count_filled(slots@, k) == 0 by {
                lemma_count_zero(slots@, k);
            }
        }
        FixtureBuckets { num, slots, filled: 0 }
    }

    /// Offer `item`, found at location `loc`: it is kept only if it falls in
    /// a bucket that is still empty.
    pub fn offer(&mut self, item: OpHash, loc: u32) -> (kept: bool)
        requires
            old(self).wf(),
        ensures
            final(self).wf(),
            final(self).num == old(self).num,
            kept == (bucket_of(loc, old(self).num as int) < old(self).num && old(self).slots@[bucket_of(
                loc,
                old(self).num as int,
            )] is None),
            kept ==> final(self).slots@ == old(self).slots@.update(
                bucket_of(loc, old(self).num as int),
                Some((item, loc)),
            ),
            kept ==> final(self).filled == old(self).filled + 1,
            !kept ==> *final(self) == *old(self),
    {
        let width = RING_SIZE / (self.num as u64);
        proof {
            assert(width >= 1) by (nonlinear_arith)
                requires
                    width == RING_SIZE as int / self.num as int,
                    0 < self.num <= u32::MAX,
            ;
        }
        let idx = (loc as u64) / width;
        if idx >= self.num as u64 {
            return false;
        }
        let i = idx as usize;
        if self.slots[i].is_some() {
            return false;
        }
        proof {
            lemma_count_filled_update(self.slots@, i as int, Some((item, loc)), self.num as int);
            lemma_count_filled_bounds(self.slots@, self.num as int);
            if count_filled(self.slots@, self.num as int) == self.num {
                assert(self.slots@[i as int] is Some);
            }
        }
        self.slots.set(i, Some((item, loc)));
        self.filled = self.filled + 1;
        true
    }

    /// Every bucket holds an item.
    pub fn is_full(&self) -> (r: bool)
        requires
            self.wf(),
        ensures
            r == (forall|i: int| 0 <= i < self.num ==> (#[trigger] self.slots@[i]) is Some),
    {
        proof {
            lemma_count_filled_bounds(self.slots@, self.num as int);
            if forall|i: int| 0 <= i < self.num ==> (#[trigger] self.slots@[i]) is Some {
                lemma_count_all(self.slots@, self.num as int);
            }
        }
        self.filled == self.num
    }

    /// The fixtures, once every bucket holds an item.
    pub fn finish(&self) -> (r: Option<HashedFixtures>)
        requires
            self.wf(),
        ensures
            r is Some <==> (forall|i: int| 0 <= i < self.num ==> (#[trigger] self.slots@[i]) is Some),
            r matches Some(f) ==> f.num == self.num && f.items@.len() == self.num && forall|i: int|
                0 <= i < self.num ==> (#[trigger] f.items@[i]) == slot_item(self.slots@[i]),
    {
        if !self.is_full() {
            return None;
        }
        let mut items: Vec<OpHash> = Vec::new();
        let mut i: usize = 0;
        while i < self.num
            invariant
                self.wf(),
                forall|j: int| 0 <= j < self.num ==> (#[trigger] self.slots@[j]) is Some,
                i <= self.num,
                items@.len() == i,
                forall|j: int| 0 <= j < i ==> (#[trigger] items@[j]) == slot_item(self.slots@[j]),
            decreases self.num - i,
        {
            match self.slots[i] {
                Some(p) => items.push(p.0),
                None => {
                    assert(false);
                },
            }
            i = i + 1;
        }
        Some(HashedFixtures { num: self.num, items })
    }
}

proof fn lemma_count_zero(s: Seq<Option<(OpHash, u32)>>, k: int)
    requires
        0 <= k <= s.len(),
        forall|j: int| 0 <= j < s.len() ==> (#[trigger] s[j]) is None,
    ensures
        count_filled(s, k) == 0,
    decreases k,
{
    if k > 0 {
        lemma_count_zero(s, k - 1);
    }
}

proof fn lemma_count_all(s: Seq<Option<(OpHash, u32)>>, k: int)
    requires
        0 <= k <= s.len(),
        forall|j: int| 0 <= j < k ==> (#[trigger] s[j]) is Some,
    ensures
        count_filled(s, k) == k,
    decreases k,
{
    if k > 0 {
        lemma_count_all(s, k - 1);
    }
}

/// Container for fixture data generated by this module
pub struct HashedFixtures {
    /// The total number of items
    pub num: usize,
    /// The generated items
    pub items: Vec<OpHash>,
}

impl HashedFixtures {
    /// Generate `num` hashed values whose locations, as `relevant_location`
    /// computes them, are evenly distributed across the space of u32 values:
    /// exactly one in each of `num` buckets of width `⌊2^32 / num⌋`. Draws
    /// come from `u`; once its data is spent every further draw is the same,
    /// so generation gives up (`None`) when the data runs out first.
    pub fn generate<F: Fn(OpHash) -> u32>(num: usize, u: &mut Unstructured, relevant_location: F) -> (r: Option<Self>)
        requires
            0 < num <= u32::MAX,
            forall|h: OpHash| relevant_location.requires((h,)),
        ensures
            r matches Some(f) ==> {
                &&& f.num == num
                &&& f.items@.len() == num
                &&& forall|i: int|
                    0 <= i < num ==> exists|loc: u32|
                        relevant_location.ensures((#[trigger] f.items@[i],), loc) && bucket_of(loc, num as int) == i
            },
    {
        let mut b = FixtureBuckets::new(num);
        let budget = remaining_len(u);
        let mut draws: usize = 0;
        while draws <= budget && !b.is_full()
            invariant
                b.wf(),
                b.num == num,
                forall|h: OpHash| relevant_location.requires((h,)),
                forall|i: int|
                    0 <= i < num ==> (#[trigger] b.slots@[i] matches Some(p) ==> relevant_location.ensures(
                        (p.0,),
                        p.1,
                    )),
            decreases budget - draws + 1,
        {
            let item = match draw_hash(u) {
                Some(h) => h,
                None => {
                    return None;
                },
            };
            let loc = relevant_location(item);
            let ghost pre = b.slots@;
            let kept = b.offer(item, loc);
            proof {
                assert forall|i: int|
                    0 <= i < num implies (#[trigger] b.slots@[i] matches Some(p) ==> relevant_location.ensures(
                        (p.0,),
                        p.1,
                    )) by {
                    lemma_bucket_bounds(loc, num as int);
                    if !kept {
                        assert(b.slots@ == pre);
                    } else if i != bucket_of(loc, num as int) {
                        assert(pre.update(bucket_of(loc, num as int), Some((item, loc)))[i] == pre[i]);
                        assert(b.slots@[i] == pre[i]);
                    }
                }
            }
            if draws == budget {
                break;
            }
            draws = draws + 1;
        }
        let r = b.finish();
        proof {
            if r is Some {
                let f = r->0;
                assert forall|i: int|
                    0 <= i < num implies exists|loc: u32|
                        relevant_location.ensures((#[trigger] f.items@[i],), loc) && bucket_of(loc, num as int) == i by {
                    let p = b.slots@[i]->0;
                    assert(relevant_location.ensures((p.0,), p.1));
                }
            }
        }
        r
    }

    /// The items are one per bucket.
    pub open spec fn wf(&self) -> bool {
        &&& 0 < self.num <= u32::MAX
        &&& self.items@.len() == self.num
    }

    /// Get the item at the specified "bucket".
    /// There are `self.num` buckets, and the index can be a negative number,
    /// which will be counted backwards from `num`.
    pub fn get(&self, i: i32) -> (r: OpHash)
        requires
            self.wf(),
            -(self.num as int) < i < self.num,
        ensures
            r == self.items@[if i < 0 { self.num + i } else { i as int }],
    {
        self.items[self.rectify_index(i)]
    }

    /// Get the endpoints for the bucket at the specified index: the end is
    /// the start of the next bucket, around the ring.
    pub fn bucket(&self, i: i32) -> (r: (DhtLocation, DhtLocation))
        requires
            self.wf(),
            -(self.num as int) < i < self.num,
        ensures
            ({
                let k = if i < 0 { self.num + i } else { i as int };
                &&& r.0 == DhtLocation((k * bucket_width(self.num as int)) as u32)
                &&& r.1 == DhtLocation(((k + 1) * bucket_width(self.num as int) % (RING_SIZE as int)) as u32)
            }),
    {
        let width = RING_SIZE / (self.num as u64);
        let k = self.rectify_index(i) as u64;
        proof {
            assert(k * width < RING_SIZE && (k + 1) * width <= RING_SIZE) by (nonlinear_arith)
                requires
                    width == RING_SIZE as int / self.num as int,
                    0 < self.num <= u32::MAX,
                    k < self.num,
            {
                vstd::arithmetic::div_mod::lemma_fundamental_div_mod(RING_SIZE as int, self.num as int);
            }
        }
        let start = k * width;
        assert(start + width == (k + 1) * width) by (nonlinear_arith)
            requires
                start == k * width,
        ;
        let end = (start + width) % RING_SIZE;
        (DhtLocation::new(start as u32), DhtLocation::new(end as u32))
    }

    pub fn rectify_index(&self, i: i32) -> (r: usize)
        requires
            -(self.num as int) < i < self.num,
        ensures
            r == if i < 0 { self.num + i } else { i as int },
    {
        rectify_index(self.num, i)
    }
}

} // verus!
