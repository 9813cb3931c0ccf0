//! The wire encoding of digests and signed events: fields in their declared
//! order, integers little-endian at fixed width, byte strings behind their
//! length as eight bytes.

use crate::digest::extend_bytes;
use crate::event::{
    event_hash, EventFields, FieldsView, Kind, KindView, Parents, SignedEvent, SignedView,
    UnsignedEvent, UnsignedView,
};
use crate::hash;
use crate::hash::Signature;
use vstd::bytes::*;
use vstd::prelude::*;
use vstd::slice::slice_subrange;

verus! {

/// The unsigned 64-bit integer that eight bytes of `bytes` from `at` on
/// encode.
pub open spec fn u64_at(bytes: Seq<u8>, at: int) -> u64 {
    spec_u64_from_le_bytes(bytes.subrange(at, at + 8))
}

/// The wire bytes of a kind: the variant index as four bytes, then the
/// genesis payload behind its length, or the two parent digests.
pub open spec fn wire_kind(kind: KindView) -> Seq<u8> {
    match kind {
        KindView::Genesis(payload) => spec_u32_to_le_bytes(0) + spec_u64_to_le_bytes(
            payload.len() as u64,
        ) + payload,
        KindView::Regular { self_parent, other_parent } => spec_u32_to_le_bytes(1) + self_parent
            + other_parent,
    }
}

/// The wire bytes of a signed event.
pub open spec fn wire_bytes(event: SignedView) -> Seq<u8> {
    spec_u64_to_le_bytes(event.unsigned.fields.user_payload.len() as u64)
        + event.unsigned.fields.user_payload + wire_kind(event.unsigned.fields.kind)
        + spec_u64_to_le_bytes(event.unsigned.fields.author) + spec_u128_to_le_bytes(
        event.unsigned.fields.timestamp,
    ) + event.unsigned.hash + event.signature
}

/// The event can be sent: its byte strings are short enough for their
/// length to fit in eight bytes, its digests have 64 bytes, and its digest
/// is that of its fields. Every event of this crate can be sent.
pub open spec fn encodable(event: SignedView) -> bool {
    &&& event.unsigned.fields.user_payload.len() <= u64::MAX
    &&& match event.unsigned.fields.kind {
        KindView::Genesis(payload) => payload.len() <= u64::MAX,
        KindView::Regular { self_parent, other_parent } => self_parent.len() == 64
            && other_parent.len() == 64,
    }
    &&& event.unsigned.hash.len() == 64
    &&& event.signature.len() == 64
    &&& event.unsigned.hash == event_hash(event.unsigned.fields)
}

/// The kind that stands at `at` in `bytes`, and where it ends.
pub open spec fn decoded_kind(bytes: Seq<u8>, at: int) -> Option<(KindView, int)> {
    if bytes.len() < at + 4 {
        None
    } else {
        let tag = spec_u32_from_le_bytes(bytes.subrange(at, at + 4));
        if tag == 0 {
            if bytes.len() < at + 12 {
                None
            } else {
                let len = u64_at(bytes, at + 4) as int;
                if bytes.len() < at + 12 + len {
                    None
                } else {
                    Some((KindView::Genesis(bytes.subrange(at + 12, at + 12 + len)), at + 12 + len))
                }
            }
        } else if tag == 1 {
            if bytes.len() < at + 132 {
                None
            } else {
                Some(
                    (
                        KindView::Regular {
                            self_parent: bytes.subrange(at + 4, at + 68),
                            other_parent: bytes.subrange(at + 68, at + 132),
                        },
                        at + 132,
                    ),
                )
            }
        } else {
            None
        }
    }
}

/// The event that `bytes` encode, if they encode one: the bytes must hold
/// exactly one event, whose digest is that of its fields.
pub open spec fn decoded(bytes: Seq<u8>) -> Option<SignedView> {
    if bytes.len() < 8 {
        None
    } else {
        let len = u64_at(bytes, 0) as int;
        if bytes.len() < 8 + len {
            None
        } else {
            match decoded_kind(bytes, 8 + len) {
                None => None,
                Some((kind, at)) => {
                    if bytes.len() != at + 152 {
                        None
                    } else {
                        let fields = FieldsView {
                            user_payload: bytes.subrange(8, 8 + len),
                            kind,
                            author: u64_at(bytes, at),
                            timestamp: spec_u128_from_le_bytes(bytes.subrange(at + 8, at + 24)),
                        };
                        let digest = bytes.subrange(at + 24, at + 88);
                        if digest != event_hash(fields) {
                            None
                        } else {
                            Some(
                                SignedView {
                                    unsigned: UnsignedView { fields, hash: digest },
                                    signature: bytes.subrange(at + 88, at + 152),
                                },
                            )
                        }
                    }
                },
            }
        }
    }
}

/// Decoding the wire bytes of an event gives the event back, and with it
/// its digest.
pub proof fn lemma_decode_encode(event: SignedView)
    requires
        encodable(event),
    ensures
        decoded(wire_bytes(event)) == Some(event),
        decoded(wire_bytes(event)).unwrap().hash() == event.hash(),
{
    lemma_auto_spec_u32_to_from_le_bytes();
    lemma_auto_spec_u64_to_from_le_bytes();
    lemma_auto_spec_u128_to_from_le_bytes();
    let fields = event.unsigned.fields;
    let payload = fields.user_payload;
    let bytes = wire_bytes(event);
    let len = payload.len() as int;
    assert(bytes.subrange(0, 8) =~= spec_u64_to_le_bytes(payload.len() as u64));
    assert(u64_at(bytes, 0) == len);
    assert(bytes.subrange(8, 8 + len) =~= payload);
    let k = 8 + len;
    let at = k + wire_kind(fields.kind).len();
    match fields.kind {
        KindView::Genesis(genesis_payload) => {
            assert(bytes.subrange(k, k + 4) =~= spec_u32_to_le_bytes(0));
            assert(bytes.subrange(k + 4, k + 12) =~= spec_u64_to_le_bytes(
                genesis_payload.len() as u64,
            ));
            assert(u64_at(bytes, k + 4) == genesis_payload.len());
            assert(bytes.subrange(k + 12, k + 12 + genesis_payload.len()) =~= genesis_payload);
        },
        KindView::Regular { self_parent, other_parent } => {
            assert(bytes.subrange(k, k + 4) =~= spec_u32_to_le_bytes(1));
            assert(bytes.subrange(k + 4, k + 68) =~= self_parent);
            assert(bytes.subrange(k + 68, k + 132) =~= other_parent);
        },
    }
    assert(decoded_kind(bytes, k) == Some((fields.kind, at)));
    assert(bytes.subrange(at, at + 8) =~= spec_u64_to_le_bytes(fields.author));
    assert(bytes.subrange(at + 8, at + 24) =~= spec_u128_to_le_bytes(fields.timestamp));
    assert(bytes.subrange(at + 24, at + 88) =~= event.unsigned.hash);
    assert(bytes.subrange(at + 88, at + 152) =~= event.signature);
}

/// What decodes to an event is the wire bytes of that event, and the event
/// can be sent.
pub proof fn lemma_encode_decode(bytes: Seq<u8>)
    requires
        decoded(bytes) is Some,
    ensures
        wire_bytes(decoded(bytes).unwrap()) == bytes,
        encodable(decoded(bytes).unwrap()),
{
    lemma_auto_spec_u32_to_from_le_bytes();
    lemma_auto_spec_u64_to_from_le_bytes();
    lemma_auto_spec_u128_to_from_le_bytes();
    let event = decoded(bytes).unwrap();
    let len = u64_at(bytes, 0) as int;
    let k = 8 + len;
    let (kind, at) = decoded_kind(bytes, k).unwrap();
    assert(spec_u64_to_le_bytes(len as u64) == bytes.subrange(0, 8));
    let tag = spec_u32_from_le_bytes(bytes.subrange(k, k + 4));
    assert(spec_u32_to_le_bytes(tag) == bytes.subrange(k, k + 4));
    if tag == 0 {
        let m = u64_at(bytes, k + 4) as int;
        assert(spec_u64_to_le_bytes(m as u64) == bytes.subrange(k + 4, k + 12));
        assert(wire_kind(kind) =~= bytes.subrange(k, at));
    } else {
        assert(wire_kind(kind) =~= bytes.subrange(k, at));
    }
    assert(spec_u64_to_le_bytes(event.unsigned.fields.author) == bytes.subrange(at, at + 8));
    assert(spec_u128_to_le_bytes(event.unsigned.fields.timestamp) == bytes.subrange(
        at + 8,
        at + 24,
    ));
    assert(wire_bytes(event) =~= bytes.subrange(0, 8) + bytes.subrange(8, k) + bytes.subrange(k, at)
        + bytes.subrange(at, at + 8) + bytes.subrange(at + 8, at + 24) + bytes.subrange(
        at + 24,
        at + 88,
    ) + bytes.subrange(at + 88, at + 152));
    assert(wire_bytes(event) =~= bytes);
}

/// The 64 bytes of `bytes` from `at` on, as a digest.
fn digest_at(bytes: &[u8], at: usize) -> (digest: hash::Hash)
    requires
        at + 64 <= bytes@.len(),
    ensures
        digest@ == bytes@.subrange(at as int, at + 64),
        digest.spec_compact() == crate::hash::compact_of(digest@),
{
    let total = bytes.len();
    let mut array = [0u8; 64];
    let mut i: usize = 0;
    while i < 64
        invariant
            i <= 64,
            total == bytes@.len(),
            at + 64 <= bytes@.len(),
            forall|j: int| 0 <= j < i ==> array@[j] == bytes@[at + j],
        decreases 64 - i,
    {
        array[i] = bytes[at + i];
        i = i + 1;
    }
    proof {
        assert(array@ =~= bytes@.subrange(at as int, at + 64));
    }
    hash::Hash::from_array(array)
}

/// The `len` bytes of `bytes` from `at` on.
fn bytes_at(bytes: &[u8], at: usize, len: usize) -> (part: Vec<u8>)
    requires
        at + len <= bytes@.len(),
    ensures
        part@ == bytes@.subrange(at as int, at + len),
{
    let total = bytes.len();
    let mut part: Vec<u8> = Vec::new();
    extend_bytes(&mut part, slice_subrange(bytes, at, at + len));
    proof {
        assert(part@ =~= bytes@.subrange(at as int, at + len));
    }
    part
}

/// The length that stands at `at` in `bytes`, if eight bytes stand there and
/// as many bytes as they say follow them.
fn length_at(bytes: &[u8], at: usize) -> (len: Option<usize>)
    requires
        at <= bytes@.len(),
    ensures
        match len {
            Some(n) => bytes@.len() >= at + 8 + n && n == u64_at(bytes@, at as int),
            None => bytes@.len() < at + 8 || bytes@.len() < at + 8 + u64_at(bytes@, at as int),
        },
{
    if bytes.len() - at < 8 {
        return None;
    }
    let n = u64_from_le_bytes(slice_subrange(bytes, at, at + 8));
    if n > (bytes.len() - at - 8) as u64 {
        return None;
    }
    Some(n as usize)
}

impl hash::Hash {
    /// The wire bytes of the digest: its 64 bytes.
    pub fn to_bytes(&self) -> (bytes: Vec<u8>)
        ensures
            bytes@ == self@,
            bytes@.len() == 64,
    {
        proof {
            self.lemma_view_len();
        }
        let mut bytes: Vec<u8> = Vec::new();
        extend_bytes(&mut bytes, self.as_ref().as_slice());
        bytes
    }

    /// The digest that `bytes` encode: they must be exactly 64. The compact
    /// fingerprint is computed anew.
    pub fn from_bytes(bytes: &[u8]) -> (digest: Option<hash::Hash>)
        ensures
            digest is Some <==> bytes@.len() == 64,
            digest matches Some(h) ==> h@ == bytes@ && h.spec_compact() == crate::hash::compact_of(
                bytes@,
            ),
    {
        if bytes.len() != 64 {
            return None;
        }
        let digest = digest_at(bytes, 0);
        proof {
            assert(bytes@.subrange(0, 64) =~= bytes@);
        }
        Some(digest)
    }
}

impl SignedEvent {
    /// The wire bytes of the event.
    pub fn encode(&self) -> (bytes: Vec<u8>)
        ensures
            bytes@ == wire_bytes(self@),
            encodable(self@),
            decoded(bytes@) == Some(self@),
    {
        let fields = self.unsigned().fields();
        let mut bytes: Vec<u8> = Vec::new();
        let payload = fields.user_payload();
        let len = u64_to_le_bytes(payload.len() as u64);
        extend_bytes(&mut bytes, len.as_slice());
        extend_bytes(&mut bytes, payload.as_slice());
        match fields.kind() {
            Kind::Genesis(genesis_payload) => {
                let tag = u32_to_le_bytes(0);
                extend_bytes(&mut bytes, tag.as_slice());
                let len = u64_to_le_bytes(genesis_payload.len() as u64);
                extend_bytes(&mut bytes, len.as_slice());
                extend_bytes(&mut bytes, genesis_payload.as_slice());
            },
            Kind::Regular(parents) => {
                let tag = u32_to_le_bytes(1);
                extend_bytes(&mut bytes, tag.as_slice());
                extend_bytes(&mut bytes, parents.self_parent.as_ref().as_slice());
                extend_bytes(&mut bytes, parents.other_parent.as_ref().as_slice());
                proof {
                    parents.self_parent.lemma_view_len();
                    parents.other_parent.lemma_view_len();
                }
            },
        }
        let author = u64_to_le_bytes(*fields.author());
        extend_bytes(&mut bytes, author.as_slice());
        let timestamp = u128_to_le_bytes(*fields.timestamp());
        extend_bytes(&mut bytes, timestamp.as_slice());
        let digest = self.hash();
        extend_bytes(&mut bytes, digest.as_ref().as_slice());
        let signature = self.signature();
        extend_bytes(&mut bytes, signature.0.as_ref().as_slice());
        proof {
            digest.lemma_view_len();
            signature.0.lemma_view_len();
            assert(bytes@ =~= wire_bytes(self@));
            lemma_decode_encode(self@);
        }
        bytes
    }

    /// The event that `bytes` encode, or `None` if they do not encode
    /// exactly one event whose digest is that of its fields. The signature
    /// is taken as it stands: to verify it, take the event apart and use
    /// `with_signature`.
    pub fn decode(bytes: &[u8]) -> (event: Option<SignedEvent>)
        ensures
            match event {
                Some(event) => decoded(bytes@) == Some(event@),
                None => decoded(bytes@) is None,
            },
    {
        let total = bytes.len();
        let len = match length_at(bytes, 0) {
            Some(len) => len,
            None => {
                return None;
            },
        };
        let payload = bytes_at(bytes, 8, len);
        let k = 8 + len;
        // the kind
        if bytes.len() - k < 4 {
            return None;
        }
        let tag = u32_from_le_bytes(slice_subrange(bytes, k, k + 4));
        let (kind, at) = if tag == 0 {
            let genesis_len = match length_at(bytes, k + 4) {
                Some(len) => len,
                None => {
                    return None;
                },
            };
            (Kind::Genesis(bytes_at(bytes, k + 12, genesis_len)), k + 12 + genesis_len)
        } else if tag == 1 {
            if bytes.len() - k < 132 {
                return None;
            }
            let parents = Parents {
                self_parent: digest_at(bytes, k + 4),
                other_parent: digest_at(bytes, k + 68),
            };
            (Kind::Regular(parents), k + 132)
        } else {
            return None;
        };
        assert(decoded_kind(bytes@, k as int) == Some((kind@, at as int)));
        if bytes.len() - at != 152 {
            return None;
        }
        let author = u64_from_le_bytes(slice_subrange(bytes, at, at + 8));
        let timestamp = u128_from_le_bytes(slice_subrange(bytes, at + 8, at + 24));
        let digest = digest_at(bytes, at + 24);
        let signature = Signature(digest_at(bytes, at + 88));
        let unsigned = UnsignedEvent::new(EventFields::new(payload, kind, author, timestamp));
        if *unsigned.hash() != digest {
            return None;
        }
        Some(SignedEvent::from_parts(unsigned, signature))
    }
}

} // verus!
