//! The aggregate algebra: a 32-byte XOR accumulator with size and count
//! counters, forming an abelian group under componentwise combination.
use vstd::prelude::*;

verus! {

/// Bytewise XOR of two sequences of equal length.
pub open spec fn xor_seq(a: Seq<u8>, b: Seq<u8>) -> Seq<u8> {
    Seq::new(a.len(), |i: int| a[i] ^ b[i])
}

/// The all-zero 32-byte hash.
pub open spec fn zero_hash() -> Seq<u8> {
    Seq::new(32, |i: int| 0u8)
}

/// Take bitwise XOR of each element of both arrays
pub fn array_xor<const N: usize>(a: &mut [u8; N], b: &[u8; N])
    ensures
        final(a)@ == xor_seq(old(a)@, b@),
{
    let ghost a0 = a@;
    let mut i: usize = 0;
    while i < N
        invariant
            a@.len() == N,
            b@.len() == N,
            a0.len() == N,
            i <= N,
            forall|j: int| 0 <= j < i ==> a@[j] == a0[j] ^ b@[j],
            forall|j: int| i <= j < N ==> a@[j] == a0[j],
        decreases N - i,
    {
        let x = a[i] ^ b[i];
        a[i] = x;
        i = i + 1;
    }
    assert(a@ =~= xor_seq(a0, b@));
}

/// Relies on `rand::random`: 32 bytes from the thread-local generator.
#[verifier::external_body]
fn random_bytes() -> [u8; 32] {
    rand::random::<[u8; 32]>()
}

/// A random 32-byte hash, for tests and fixtures.
pub fn fake_hash() -> [u8; 32] {
    random_bytes()
}

/// The content hash of one operation.
#[derive(Clone, Copy, Debug, Eq)]
pub struct OpHash(pub [u8; 32]);

/// XOR of the hashes of every operation in a region.
#[derive(Clone, Copy, Debug, Eq)]
pub struct RegionHash(pub [u8; 32]);

/// Two byte arrays hold the same bytes.
fn bytes_eq(a: &[u8; 32], b: &[u8; 32]) -> (r: bool)
    ensures
        r == (a@ == b@),
{
    let mut i: usize = 0;
    while i < 32
        invariant
            i <= 32,
            a@.len() == 32,
            b@.len() == 32,
            forall|j: int| 0 <= j < i ==> a@[j] == b@[j],
        decreases 32 - i,
    {
        if a[i] != b[i] {
            return false;
        }
        i = i + 1;
    }
    assert(a@ =~= b@);
    true
}

impl PartialEq for OpHash {
    fn eq(&self, o: &OpHash) -> (r: bool) {
        bytes_eq(&self.0, &o.0)
    }
}

impl vstd::std_specs::cmp::PartialEqSpecImpl for OpHash {
    open spec fn obeys_eq_spec() -> bool {
        true
    }

    open spec fn eq_spec(&self, o: &OpHash) -> bool {
        self.0@ == o.0@
    }
}

impl PartialEq for RegionHash {
    fn eq(&self, o: &RegionHash) -> (r: bool) {
        bytes_eq(&self.0, &o.0)
    }
}

impl vstd::std_specs::cmp::PartialEqSpecImpl for RegionHash {
    open spec fn obeys_eq_spec() -> bool {
        true
    }

    open spec fn eq_spec(&self, o: &RegionHash) -> bool {
        self.0@ == o.0@
    }
}

impl RegionHash {
    pub fn new(bytes: [u8; 32]) -> (r: Self)
        ensures
            r.0@ == bytes@,
    {
        RegionHash(bytes)
    }

    /// Any null node hashes just get ignored.
    pub fn xor(&mut self, other: &Self)
        ensures
            final(self).0@ == xor_seq(old(self).0@, other.0@),
    {
        array_xor(&mut self.0, &other.0);
    }

    pub fn add(self, rhs: Self) -> (r: Self)
        ensures
            r.0@ == xor_seq(self.0@, rhs.0@),
    {
        let mut s = self;
        s.xor(&rhs);
        s
    }

    pub fn zero() -> (r: Self)
        ensures
            r.0@ == zero_hash(),
    {
        let r = RegionHash([0u8; 32]);
        assert(r.0@ =~= zero_hash());
        r
    }

    pub fn is_zero(&self) -> (r: bool)
        ensures
            r == (self.0@ == zero_hash()),
    {
        let mut i: usize = 0;
        while i < 32
            invariant
                i <= 32,
                self.0@.len() == 32,
                forall|j: int| 0 <= j < i ==> self.0@[j] == 0u8,
            decreases 32 - i,
        {
            if self.0[i] != 0 {
                assert(self.0@[i as int] != zero_hash()[i as int]);
                return false;
            }
            i = i + 1;
        }
        assert(self.0@ =~= zero_hash());
        true
    }
}

impl From<OpHash> for RegionHash {
    fn from(h: OpHash) -> (r: Self) {
        RegionHash(h.0)
    }
}

impl vstd::std_specs::convert::FromSpecImpl<OpHash> for RegionHash {
    open spec fn obeys_from_spec() -> bool {
        true
    }

    open spec fn from_spec(h: OpHash) -> Self {
        RegionHash(h.0)
    }
}

proof fn lemma_u8_xor(x: u8, y: u8, z: u8)
    ensures
        x ^ y == y ^ x,
        (x ^ y) ^ z == x ^ (y ^ z),
        x ^ 0u8 == x,
        (x ^ y) ^ y == x,
        (x ^ x) == 0u8,
{
    assert(x ^ y == y ^ x) by (bit_vector);
    assert((x ^ y) ^ z == x ^ (y ^ z)) by (bit_vector);
    assert(x ^ 0u8 == x) by (bit_vector);
    assert((x ^ y) ^ y == x) by (bit_vector);
    assert((x ^ x) == 0u8) by (bit_vector);
}

/// XOR of hashes is commutative and associative, has the zero hash as its
/// identity, and undoes itself.
pub proof fn lemma_xor_seq_group(a: Seq<u8>, b: Seq<u8>, c: Seq<u8>)
    requires
        a.len() == 32,
        b.len() == 32,
        c.len() == 32,
    ensures
        xor_seq(a, b) == xor_seq(b, a),
        xor_seq(xor_seq(a, b), c) == xor_seq(a, xor_seq(b, c)),
        xor_seq(a, zero_hash()) == a,
        xor_seq(xor_seq(a, b), b) == a,
        xor_seq(a, a) == zero_hash(),
{
    assert forall|i: int| 0 <= i < 32 implies {
        &&& a[i] ^ b[i] == b[i] ^ a[i]
        &&& (a[i] ^ b[i]) ^ c[i] == a[i] ^ (b[i] ^ c[i])
        &&& a[i] ^ 0u8 == a[i]
        &&& (a[i] ^ b[i]) ^ b[i] == a[i]
        &&& a[i] ^ a[i] == 0u8
    } by {
        lemma_u8_xor(a[i], b[i], c[i]);
    }
    assert(xor_seq(a, b) =~= xor_seq(b, a));
    assert(xor_seq(xor_seq(a, b), c) =~= xor_seq(a, xor_seq(b, c)));
    assert(xor_seq(a, zero_hash()) =~= a);
    assert(xor_seq(xor_seq(a, b), b) =~= a);
    assert(xor_seq(a, a) =~= zero_hash());
}

/// The mathematical value of a [`RegionData`]: the XOR of the hashes of the
/// region's operations, their total size and their number.
pub struct RegionModel {
    pub hash: Seq<u8>,
    pub size: int,
    pub count: int,
}

/// The identity of the algebra: no operations at all.
pub open spec fn zero_model() -> RegionModel {
    RegionModel { hash: zero_hash(), size: 0, count: 0 }
}

/// The aggregate of two disjoint operation sets.
pub open spec fn combine(a: RegionModel, b: RegionModel) -> RegionModel {
    RegionModel { hash: xor_seq(a.hash, b.hash), size: a.size + b.size, count: a.count + b.count }
}

/// The aggregate of `a` with the operations of `b` taken out.
pub open spec fn subtract(a: RegionModel, b: RegionModel) -> RegionModel {
    RegionModel { hash: xor_seq(a.hash, b.hash), size: a.size - b.size, count: a.count - b.count }
}

/// The pertinent data that we care about for each Region. This is what gets
/// sent over gossip so that nodes can discover which Regions are different
/// between them.
#[derive(Clone, Copy, Debug, Eq)]
pub struct RegionData {
    /// The XOR of hashes of all Ops in this Region
    pub hash: RegionHash,
    /// The total size of Op data contains in this Region
    pub size: u32,
    /// The number of Ops in this Region.
    pub count: u32,
}

impl View for RegionData {
    type V = RegionModel;

    open spec fn view(&self) -> RegionModel {
        RegionModel { hash: self.hash.0@, size: self.size as int, count: self.count as int }
    }
}

impl PartialEq for RegionData {
    fn eq(&self, o: &RegionData) -> (r: bool) {
        self.size == o.size && self.count == o.count && bytes_eq(&self.hash.0, &o.hash.0)
    }
}

impl vstd::std_specs::cmp::PartialEqSpecImpl for RegionData {
    open spec fn obeys_eq_spec() -> bool {
        true
    }

    open spec fn eq_spec(&self, o: &RegionData) -> bool {
        self@ == o@
    }
}

impl RegionData {
    /// Bytes of one value on the wire: the hash and the two counters.
    pub const MASS: usize = 40;

    /// The data of a region that holds one operation.
    pub fn from_op(hash: OpHash, size: u32) -> (r: Self)
        ensures
            r@ == (RegionModel { hash: hash.0@, size: size as int, count: 1 }),
    {
        RegionData { hash: RegionHash::from(hash), size, count: 1 }
    }

    pub fn zero() -> (r: Self)
        ensures
            r@ == zero_model(),
    {
        RegionData { hash: RegionHash::zero(), size: 0, count: 0 }
    }

    /// A region is empty when it counts no operation.
    pub fn is_zero(&self) -> (r: bool)
        ensures
            r == (self.count == 0),
    {
        self.count == 0
    }

    /// Fold the operations of `other`, which must be disjoint from those of
    /// `self`, into `self`.
    pub fn add_assign(&mut self, other: Self)
        requires
            old(self).size + other.size <= u32::MAX,
            old(self).count + other.count <= u32::MAX,
        ensures
            final(self)@ == combine(old(self)@, other@),
    {
        self.hash.xor(&other.hash);
        self.size = self.size + other.size;
        self.count = self.count + other.count;
    }

    pub fn add(self, other: Self) -> (r: Self)
        requires
            self.size + other.size <= u32::MAX,
            self.count + other.count <= u32::MAX,
        ensures
            r@ == combine(self@, other@),
    {
        let mut s = self;
        s.add_assign(other);
        s
    }

    /// Take the operations of `other`, which must all be in `self`, out of
    /// `self`.
    pub fn sub_assign(&mut self, other: Self)
        requires
            other.size <= old(self).size,
            other.count <= old(self).count,
        ensures
            final(self)@ == subtract(old(self)@, other@),
    {
        // XOR works as both addition and subtraction
        self.hash.xor(&other.hash);
        self.size = self.size - other.size;
        self.count = self.count - other.count;
    }

    pub fn sub(self, other: Self) -> (r: Self)
        requires
            other.size <= self.size,
            other.count <= self.count,
        ensures
            r@ == subtract(self@, other@),
    {
        let mut s = self;
        s.sub_assign(other);
        s
    }
}

/// Combining region data is associative and commutative, and the zero region
/// is its identity.
pub proof fn lemma_combine_abelian(a: RegionData, b: RegionData, c: RegionData)
    ensures
        combine(combine(a@, b@), c@) == combine(a@, combine(b@, c@)),
        combine(a@, zero_model()) == a@,
        combine(a@, b@) == combine(b@, a@),
{
    lemma_xor_seq_group(a@.hash, b@.hash, c@.hash);
}

/// Subtracting what was combined in gives back the region data it was combined into.
pub proof fn lemma_subtract_inverts_combine(a: RegionData, b: RegionData)
    ensures
        subtract(combine(a@, b@), b@) == a@,
{
    lemma_xor_seq_group(a@.hash, b@.hash, b@.hash);
}

} // verus!
