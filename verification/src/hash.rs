//! Fixed-width digests with their XOR algebra and compact fingerprint.

use core::cmp::Ordering;
use vstd::prelude::*;

verus! {

/// XOR of all bytes of `s` (`0` for the empty sequence).
pub open spec fn xor_fold(s: Seq<u8>) -> u8
    decreases s.len(),
{
    if s.len() == 0 {
        0
    } else {
        xor_fold(s.drop_last()) ^ s.last()
    }
}

/// Fingerprint of a 64-byte digest: one byte per 16-byte quarter, each the
/// XOR of the bytes of that quarter.
pub open spec fn compact_of(bytes: Seq<u8>) -> Seq<u8> {
    seq![
        xor_fold(bytes.subrange(0, 16)),
        xor_fold(bytes.subrange(16, 32)),
        xor_fold(bytes.subrange(32, 48)),
        xor_fold(bytes.subrange(48, 64)),
    ]
}

/// Byte-wise XOR of two sequences (as long as the first one).
pub open spec fn xor_seq(a: Seq<u8>, b: Seq<u8>) -> Seq<u8> {
    Seq::new(a.len(), |i: int| a[i] ^ b[i])
}

/// Position of the first byte in which `a` and `b` differ; their length if
/// there is none.
pub open spec fn first_difference(a: Seq<u8>, b: Seq<u8>) -> int {
    choose|k: int| differ_first_at(a, b, k)
}

/// The first `k` bytes of `a` and `b` agree, and the next ones, if any are
/// left, differ.
pub open spec fn differ_first_at(a: Seq<u8>, b: Seq<u8>, k: int) -> bool {
    &&& 0 <= k <= a.len()
    &&& forall|j: int| 0 <= j < k ==> a[j] == b[j]
    &&& k < a.len() ==> a[k] != b[k]
}

/// The order of two byte sequences of one length: that of the first bytes
/// in which they differ.
pub open spec fn lex_order(a: Seq<u8>, b: Seq<u8>) -> Ordering {
    let k = first_difference(a, b);
    if k >= a.len() {
        Ordering::Equal
    } else if a[k] < b[k] {
        Ordering::Less
    } else {
        Ordering::Greater
    }
}

/// The first difference is where the first `k` bytes agree and the next
/// ones, if any are left, differ.
pub proof fn lemma_first_difference(a: Seq<u8>, b: Seq<u8>, k: usize)
    requires
        k <= a.len(),
        forall|j: int| 0 <= j < k ==> a[j] == b[j],
        k < a.len() ==> a[k as int] != b[k as int],
    ensures
        first_difference(a, b) == k,
{
    let at = k as int;
    assert(differ_first_at(a, b, at));
    let found = first_difference(a, b);
    assert(differ_first_at(a, b, found));
    if found < at {
        assert(a[found] == b[found]);
    }
    if at < found {
        assert(a[at] == b[at]);
    }
}

/// A 64-byte digest together with its cached compact fingerprint.
///
/// Identity is decided by the 64 bytes alone, which are the view of the value;
/// the fingerprint is only a short rendering for diagnostics.
#[derive(Clone, Copy, Debug, Ord, Hash)]
pub struct Hash {
    inner: [u8; 64],
    compact: [u8; 4],
}

impl View for Hash {
    type V = Seq<u8>;

    closed spec fn view(&self) -> Seq<u8> {
        self.inner@
    }
}

impl DeepView for Hash {
    type V = Seq<u8>;

    open spec fn deep_view(&self) -> Seq<u8> {
        self@
    }
}

impl Hash {
    #[verifier::type_invariant]
    spec fn fingerprint_is_cached(self) -> bool {
        self.compact@ == compact_of(self.inner@)
    }

    /// The digest with the given 64 bytes and their fingerprint.
    pub closed spec fn spec_from_bytes(bytes: Seq<u8>) -> Hash {
        choose|h: Hash| h.inner@ == bytes && h.compact@ == compact_of(bytes)
    }

    /// A digest is determined by its bytes.
    proof fn lemma_from_bytes(self)
        requires
            self.compact@ == compact_of(self.inner@),
        ensures
            self == Hash::spec_from_bytes(self@),
    {
        let other = Hash::spec_from_bytes(self@);
        assert(other.inner@ == self.inner@ && other.compact@ == self.compact@);
        assert(other.inner =~= self.inner);
        assert(other.compact =~= self.compact);
    }

    /// The cached fingerprint of a digest, as a specification value.
    pub closed spec fn spec_compact(&self) -> Seq<u8> {
        self.compact@
    }

    /// A digest always has 64 bytes.
    pub broadcast proof fn lemma_view_len(&self)
        ensures
            #[trigger] self@.len() == 64,
    {
    }

    pub fn into_array(self) -> (bytes: [u8; 64])
        ensures
            bytes@ == self@,
    {
        self.inner
    }

    pub fn as_ref(&self) -> (bytes: &[u8; 64])
        ensures
            bytes@ == self@,
    {
        &self.inner
    }

    pub fn as_compact(&self) -> (compact: &[u8; 4])
        ensures
            compact@ == compact_of(self@),
            compact@ == self.spec_compact(),
    {
        proof {
            use_type_invariant(self);
        }
        &self.compact
    }

    /// XOR of all the bytes of `slice`.
    pub fn xor_bytes(slice: &[u8]) -> (result: u8)
        ensures
            result == xor_fold(slice@),
    {
        let mut result = 0u8;
        let mut i: usize = 0;
        while i < slice.len()
            invariant
                i <= slice.len(),
                result == xor_fold(slice@.subrange(0, i as int)),
            decreases slice.len() - i,
        {
            proof {
                let next = slice@.subrange(0, i + 1);
                assert(next.drop_last() == slice@.subrange(0, i as int));
                assert(next.last() == slice@[i as int]);
            }
            result = result ^ slice[i];
            i = i + 1;
        }
        proof {
            assert(slice@.subrange(0, i as int) == slice@);
        }
        result
    }

    /// The fingerprint of 64 digest bytes.
    pub fn calc_compact(inner: &[u8; 64]) -> (compact: [u8; 4])
        ensures
            compact@ == compact_of(inner@),
    {
        let all = inner.as_slice();
        let a = Self::xor_bytes(vstd::slice::slice_subrange(all, 0, 16));
        let b = Self::xor_bytes(vstd::slice::slice_subrange(all, 16, 32));
        let c = Self::xor_bytes(vstd::slice::slice_subrange(all, 32, 48));
        let d = Self::xor_bytes(vstd::slice::slice_subrange(all, 48, 64));
        let compact = [a, b, c, d];
        proof {
            assert(compact@ =~= compact_of(inner@));
        }
        compact
    }

    pub fn from_array(inner: [u8; 64]) -> (hash: Hash)
        ensures
            hash@ == inner@,
            hash.spec_compact() == compact_of(inner@),
            hash == Hash::spec_from_bytes(inner@),
    {
        let compact = Self::calc_compact(&inner);
        let hash = Hash { inner, compact };
        proof {
            hash.lemma_from_bytes();
        }
        hash
    }

    /// Byte-wise XOR of two digests.
    pub fn xor(&self, rhs: &Hash) -> (result: Hash)
        ensures
            result@ == xor_seq(self@, rhs@),
            result == Hash::spec_from_bytes(xor_seq(self@, rhs@)),
    {
        let mut result = [0u8; 64];
        let mut i: usize = 0;
        while i < 64
            invariant
                i <= 64,
                forall|k: int| 0 <= k < i ==> result@[k] == self.inner@[k] ^ rhs.inner@[k],
            decreases 64 - i,
        {
            result[i] = self.inner[i] ^ rhs.inner[i];
            i = i + 1;
        }
        proof {
            assert(result@ =~= xor_seq(self@, rhs@));
        }
        let xor = Hash::from_array(result);
        proof {
            xor.lemma_from_bytes();
        }
        xor
    }
}

impl PartialEq for Hash {
    fn eq(&self, other: &Hash) -> (equal: bool) {
        let mut i: usize = 0;
        while i < 64
            invariant
                i <= 64,
                forall|k: int| 0 <= k < i ==> self.inner@[k] == other.inner@[k],
            decreases 64 - i,
        {
            if self.inner[i] != other.inner[i] {
                return false;
            }
            i = i + 1;
        }
        proof {
            assert(self.inner@ =~= other.inner@);
        }
        true
    }
}

impl vstd::std_specs::cmp::PartialEqSpecImpl for Hash {
    open spec fn obeys_eq_spec() -> bool {
        true
    }

    open spec fn eq_spec(&self, other: &Hash) -> bool {
        self@ == other@
    }
}

impl Eq for Hash {

}

impl PartialOrd for Hash {
    fn partial_cmp(&self, other: &Hash) -> (order: Option<Ordering>) {
        let mut i: usize = 0;
        while i < 64
            invariant
                i <= 64,
                forall|j: int| 0 <= j < i ==> self.inner@[j] == other.inner@[j],
            decreases 64 - i,
        {
            if self.inner[i] < other.inner[i] {
                proof {
                    lemma_first_difference(self.inner@, other.inner@, i);
                }
                return Some(Ordering::Less);
            }
            if self.inner[i] > other.inner[i] {
                proof {
                    lemma_first_difference(self.inner@, other.inner@, i);
                }
                return Some(Ordering::Greater);
            }
            i = i + 1;
        }
        proof {
            lemma_first_difference(self.inner@, other.inner@, i);
        }
        Some(Ordering::Equal)
    }
}

impl vstd::std_specs::cmp::PartialOrdSpecImpl for Hash {
    open spec fn obeys_partial_cmp_spec() -> bool {
        true
    }

    open spec fn partial_cmp_spec(&self, other: &Hash) -> Option<Ordering> {
        Some(lex_order(self@, other@))
    }
}

impl core::ops::BitXor for &Hash {
    type Output = Hash;

    fn bitxor(self, rhs: &Hash) -> (result: Hash)
        ensures
            result@ == xor_seq(self@, rhs@),
    {
        self.xor(rhs)
    }
}

impl vstd::std_specs::ops::BitXorSpecImpl for &Hash {
    open spec fn obeys_bitxor_spec() -> bool {
        true
    }

    open spec fn bitxor_req(self, rhs: &Hash) -> bool {
        true
    }

    open spec fn bitxor_spec(self, rhs: &Hash) -> Hash {
        Hash::spec_from_bytes(xor_seq(self@, rhs@))
    }
}

impl core::ops::BitXor<&Hash> for Hash {
    type Output = Hash;

    fn bitxor(self, rhs: &Hash) -> (result: Hash)
        ensures
            result@ == xor_seq(self@, rhs@),
    {
        self.xor(rhs)
    }
}

impl vstd::std_specs::ops::BitXorSpecImpl<&Hash> for Hash {
    open spec fn obeys_bitxor_spec() -> bool {
        true
    }

    open spec fn bitxor_req(self, rhs: &Hash) -> bool {
        true
    }

    open spec fn bitxor_spec(self, rhs: &Hash) -> Hash {
        Hash::spec_from_bytes(xor_seq(self@, rhs@))
    }
}

/// Opaque signature over an event's digest, as wide as the digest itself.
#[derive(Clone, Copy, Debug, Ord, Hash)]
pub struct Signature(pub Hash);

impl View for Signature {
    type V = Seq<u8>;

    open spec fn view(&self) -> Seq<u8> {
        self.0@
    }
}

impl Signature {
    /// Byte-wise XOR of two signatures, for aggregation by higher layers.
    pub fn xor(&self, rhs: &Signature) -> (result: Signature)
        ensures
            result@ == xor_seq(self@, rhs@),
            result == Signature(Hash::spec_from_bytes(xor_seq(self@, rhs@))),
    {
        Signature(self.0.xor(&rhs.0))
    }
}

impl PartialEq for Signature {
    fn eq(&self, other: &Signature) -> (equal: bool) {
        self.0 == other.0
    }
}

impl vstd::std_specs::cmp::PartialEqSpecImpl for Signature {
    open spec fn obeys_eq_spec() -> bool {
        true
    }

    open spec fn eq_spec(&self, other: &Signature) -> bool {
        self@ == other@
    }
}

impl Eq for Signature {

}

impl PartialOrd for Signature {
    fn partial_cmp(&self, other: &Signature) -> (order: Option<Ordering>) {
        self.0.partial_cmp(&other.0)
    }
}

impl vstd::std_specs::cmp::PartialOrdSpecImpl for Signature {
    open spec fn obeys_partial_cmp_spec() -> bool {
        true
    }

    open spec fn partial_cmp_spec(&self, other: &Signature) -> Option<Ordering> {
        Some(lex_order(self@, other@))
    }
}

impl core::ops::BitXor for &Signature {
    type Output = Signature;

    fn bitxor(self, rhs: &Signature) -> (result: Signature)
        ensures
            result@ == xor_seq(self@, rhs@),
    {
        self.xor(rhs)
    }
}

impl vstd::std_specs::ops::BitXorSpecImpl for &Signature {
    open spec fn obeys_bitxor_spec() -> bool {
        true
    }

    open spec fn bitxor_req(self, rhs: &Signature) -> bool {
        true
    }

    open spec fn bitxor_spec(self, rhs: &Signature) -> Signature {
        Signature(Hash::spec_from_bytes(xor_seq(self@, rhs@)))
    }
}

impl core::ops::BitXor<&Signature> for Signature {
    type Output = Signature;

    fn bitxor(self, rhs: &Signature) -> (result: Signature)
        ensures
            result@ == xor_seq(self@, rhs@),
    {
        self.xor(rhs)
    }
}

impl vstd::std_specs::ops::BitXorSpecImpl<&Signature> for Signature {
    open spec fn obeys_bitxor_spec() -> bool {
        true
    }

    open spec fn bitxor_req(self, rhs: &Signature) -> bool {
        true
    }

    open spec fn bitxor_spec(self, rhs: &Signature) -> Signature {
        Signature(Hash::spec_from_bytes(xor_seq(self@, rhs@)))
    }
}

/// XOR of bytes is commutative and every byte is its own inverse.
pub proof fn lemma_xor_u8(a: u8, b: u8)
    ensures
        a ^ b == b ^ a,
        (a ^ b) ^ b == a,
{
    assert(a ^ b == b ^ a) by (bit_vector);
    assert((a ^ b) ^ b == a) by (bit_vector);
}

/// XOR of byte sequences of one length is commutative: `a ^ b == b ^ a`.
pub proof fn lemma_xor_commutative(a: Seq<u8>, b: Seq<u8>)
    requires
        a.len() == b.len(),
    ensures
        xor_seq(a, b) == xor_seq(b, a),
{
    assert forall|i: int| 0 <= i < a.len() implies xor_seq(a, b)[i] == xor_seq(b, a)[i] by {
        lemma_xor_u8(a[i], b[i]);
    }
    assert(xor_seq(a, b) =~= xor_seq(b, a));
}

/// XOR-ing the same sequence twice gives the first operand back:
/// `(a ^ b) ^ b == a`.
pub proof fn lemma_xor_involution(a: Seq<u8>, b: Seq<u8>)
    requires
        a.len() == b.len(),
    ensures
        xor_seq(xor_seq(a, b), b) == a,
{
    assert forall|i: int| 0 <= i < a.len() implies xor_seq(xor_seq(a, b), b)[i] == a[i] by {
        lemma_xor_u8(a[i], b[i]);
    }
    assert(xor_seq(xor_seq(a, b), b) =~= a);
}

/// XOR of byte sequences of one length is associative.
pub proof fn lemma_xor_associative(a: Seq<u8>, b: Seq<u8>, c: Seq<u8>)
    requires
        a.len() == b.len(),
        b.len() == c.len(),
    ensures
        xor_seq(xor_seq(a, b), c) == xor_seq(a, xor_seq(b, c)),
{
    assert forall|i: int| 0 <= i < a.len() implies xor_seq(xor_seq(a, b), c)[i] == xor_seq(
        a,
        xor_seq(b, c),
    )[i] by {
        let (x, y, z) = (a[i], b[i], c[i]);
        assert((x ^ y) ^ z == x ^ (y ^ z)) by (bit_vector);
    }
    assert(xor_seq(xor_seq(a, b), c) =~= xor_seq(a, xor_seq(b, c)));
}

/// The two laws of the digest XOR, stated of digests: it is commutative, and
/// XOR-ing with the same digest twice restores the first operand.
pub proof fn lemma_hash_xor_laws(a: Hash, b: Hash)
    ensures
        xor_seq(a@, b@) == xor_seq(b@, a@),
        xor_seq(xor_seq(a@, b@), b@) == a@,
{
    a.lemma_view_len();
    b.lemma_view_len();
    lemma_xor_commutative(a@, b@);
    lemma_xor_involution(a@, b@);
}

} // verus!
