use std::cmp::Ordering;
use std::collections::HashSet;

use blake2::{Blake2b512, Digest};
use hashgraph::event::{
    Children, EventFields, EventWrapper, Kind, Parents, SelfChild, SignedEvent, UnsignedEvent,
    WithSignatureCreationError,
};
use hashgraph::hash;
use hashgraph::hash::Signature;

fn hex64(text: &str) -> [u8; 64] {
    let digits: Vec<u8> = text
        .chars()
        .filter(|c| !c.is_whitespace())
        .map(|c| c.to_digit(16).unwrap() as u8)
        .collect();
    assert_eq!(digits.len(), 128);
    let mut bytes = [0u8; 64];
    for i in 0..64 {
        bytes[i] = digits[2 * i] * 16 + digits[2 * i + 1];
    }
    bytes
}

fn payload<T: serde::Serialize>(value: T) -> Vec<u8> {
    bincode::serialize(&value).unwrap()
}

fn genesis() -> Kind {
    Kind::Genesis(payload(()))
}

const HASH_1: &str = "8a64b55fcfa60235edf16cebbfb36364d6481c3c5ec4de987114ed86c8f252c22
                3fadfa820edd589d9c723f032fdf6c9ca95f2fd95c4ffc01808812d8c1bafea";
const HASH_2: &str = "c3ea7982719e7197c63842e41427f358a747e96c7a849b28604569ea101b0bdc5
                6cba63e4a60b95cb29bce01c2e7e3f918d60fa35aa90586770dfc699da0361a";

fn create_events() -> Vec<EventWrapper> {
    let mock_parents_1 = Parents {
        self_parent: hash::Hash::from_array(hex64(
            "021ced8799296ceca557832ab941a50b4a11f83478cf141f51f933f653ab9fbc
                c05a037cddbed06e309bf334942c4e58cdf1a46e237911ccd7fcf9787cbc7fd0",
        )),
        other_parent: hash::Hash::from_array(hex64(
            "a231788464c1d56aab39b098359eb00e2fd12622d85821d8bffe68fdb3044f24
                370e750986e6e4747f6ec0e051ae3e7d2558f7c4d3c4d5ab57362e572abecb36",
        )),
    };
    let mock_parents_2 = Parents {
        self_parent: hash::Hash::from_array(hex64(HASH_1)),
        other_parent: hash::Hash::from_array(hex64(HASH_2)),
    };
    let results = vec![
        EventWrapper::new_fakely_signed(payload(0), genesis(), 0, 0),
        EventWrapper::new_fakely_signed(payload(0), genesis(), 1, 0),
        EventWrapper::new_fakely_signed(payload(0), Kind::Regular(mock_parents_1.clone()), 0, 0),
        EventWrapper::new_fakely_signed(payload(0), Kind::Regular(mock_parents_2.clone()), 0, 0),
        EventWrapper::new_fakely_signed(
            payload(0),
            Kind::Regular(Parents {
                self_parent: mock_parents_1.self_parent.clone(),
                other_parent: mock_parents_2.other_parent.clone(),
            }),
            0,
            0,
        ),
        EventWrapper::new_fakely_signed(
            payload(0),
            Kind::Regular(Parents {
                self_parent: mock_parents_2.self_parent.clone(),
                other_parent: mock_parents_1.other_parent.clone(),
            }),
            0,
            0,
        ),
        EventWrapper::new_fakely_signed(payload(1234567), genesis(), 0, 0),
        EventWrapper::new_fakely_signed(
            payload(1234567),
            Kind::Regular(mock_parents_1.clone()),
            0,
            1,
        ),
    ];
    results
}

#[test]
fn events_create() {
    create_events();
    // also test on various payloads
    EventWrapper::new_fakely_signed(payload(()), genesis(), 0, 0);
    EventWrapper::new_fakely_signed(payload((0,)), genesis(), 0, 0);
    EventWrapper::new_fakely_signed(payload(vec![()]), genesis(), 0, 0);
    EventWrapper::new_fakely_signed(payload("asdassa"), genesis(), 0, 0);
    EventWrapper::new_fakely_signed(payload("asdassa".to_owned()), genesis(), 0, 0);
}

#[test]
fn hashes_unique() {
    let events = create_events();
    let mut identifiers = HashSet::with_capacity(events.len());
    for n in events {
        assert!(!identifiers.contains(n.hash()));
        identifiers.insert(n.hash().clone());
    }
}

#[test]
fn hash_operations_work() {
    let hash1 = hash::Hash::from_array(hex64(HASH_1));
    let hash2 = hash::Hash::from_array(hex64(HASH_2));
    let expected_xor = hash::Hash::from_array(hex64(
        "498eccddbe3873a22bc92e0fab94903c710ff550244045b01151846cd8e9591e7
            53179966a8d6cd56b5cedf1f01a1530d243fd5ecf6dfa466f057d4411bb99f0",
    ));

    let xor = &hash1 ^ &hash2;
    assert_eq!(expected_xor, xor);
    let xor = &hash2 ^ &hash1;
    assert_eq!(expected_xor, xor);
    let xor = hash2 ^ &hash1;
    assert_eq!(expected_xor, xor);
}

#[test]
fn hash_serializes() {
    let hash1 = hash::Hash::from_array(hex64(HASH_1));
    let hash2 = hash::Hash::from_array(hex64(HASH_2));

    let hash1_serialized = hash1.to_bytes();
    let hash2_serialized = hash2.to_bytes();

    let hash1_deserialized = hash::Hash::from_bytes(&hash1_serialized).unwrap();
    let hash2_deserialized = hash::Hash::from_bytes(&hash2_serialized).unwrap();

    assert_eq!(hash1, hash1_deserialized);
    assert_eq!(hash2, hash2_deserialized);

    assert_eq!(hash1.as_compact(), hash1_deserialized.as_compact());
    assert_eq!(hash2.as_compact(), hash2_deserialized.as_compact());

    // the wire bytes are the 64 bytes, as bincode writes two halves of them
    let halves: ([u8; 32], [u8; 32]) = (
        hex64(HASH_1)[..32].try_into().unwrap(),
        hex64(HASH_1)[32..].try_into().unwrap(),
    );
    assert_eq!(hash1_serialized, bincode::serialize(&halves).unwrap());
    assert!(hash::Hash::from_bytes(&hash1_serialized[..63]).is_none());
    let mut longer = hash1_serialized.clone();
    longer.push(0);
    assert!(hash::Hash::from_bytes(&longer).is_none());
    assert!(hash::Hash::from_bytes(&[]).is_none());
}

#[test]
fn hash_accessors_and_fingerprint() {
    let mut bytes = [0u8; 64];
    bytes[17] = 0xab;
    bytes[48] = 2;
    bytes[63] = 1;
    let digest = hash::Hash::from_array(bytes);
    assert_eq!(digest.as_ref(), &bytes);
    assert_eq!(digest.into_array(), bytes);
    // one byte for each quarter of 16 bytes
    assert_eq!(digest.as_compact(), &[0, 0xab, 0, 3]);
    assert_eq!(hash::Hash::calc_compact(&bytes), [0, 0xab, 0, 3]);
    assert_eq!(hash::Hash::xor_bytes(&[]), 0);
    assert_eq!(hash::Hash::xor_bytes(&[0x0f, 0xf0, 0x01]), 0xfe);
    let digest = hash::Hash::from_array(hex64(HASH_1));
    let bytes = hex64(HASH_1);
    let mut compact = [0u8; 4];
    for i in 0..64 {
        compact[i / 16] ^= bytes[i];
    }
    assert_eq!(digest.as_compact(), &compact);
    assert_eq!(compact, [0xca, 0xc6, 0x02, 0x50]);
}

#[test]
fn xor_is_commutative_and_its_own_inverse() {
    let a = hash::Hash::from_array(hex64(HASH_1));
    let b = hash::Hash::from_array(hex64(HASH_2));
    assert_eq!(a.xor(&b), b.xor(&a));
    assert_eq!(a.xor(&b).xor(&b), a);
    assert_eq!(a.xor(&a), hash::Hash::from_array([0u8; 64]));
    assert!(a.xor(&b) != a);
    // the fingerprint of the result is computed anew
    let x = a.xor(&b);
    assert_eq!(x.as_compact(), &hash::Hash::calc_compact(x.as_ref()));
    let sa = Signature(a);
    let sb = Signature(b);
    assert_eq!(&sa ^ &sb, Signature(a.xor(&b)));
    assert_eq!(sa ^ &sb, Signature(b.xor(&a)));
    assert_eq!(sa.xor(&sb).xor(&sb), sa);
}

#[test]
fn digests_are_ordered_by_their_bytes() {
    let mut low = [7u8; 64];
    let mut high = [7u8; 64];
    low[20] = 1;
    high[20] = 2;
    low[40] = 9;
    high[40] = 0;
    let low = hash::Hash::from_array(low);
    let high = hash::Hash::from_array(high);
    assert_eq!(low.partial_cmp(&high), Some(Ordering::Less));
    assert_eq!(high.partial_cmp(&low), Some(Ordering::Greater));
    assert_eq!(low.partial_cmp(&low), Some(Ordering::Equal));
    assert!(low < high);
    assert_eq!(low.cmp(&high), Ordering::Less);
    assert_eq!(low.max(high), high);
    assert_eq!(Signature(low).partial_cmp(&Signature(high)), Some(Ordering::Less));
    assert!(hash::Hash::from_array([0u8; 64]) < hash::Hash::from_array([1u8; 64]));
    let mut last = [0u8; 64];
    last[63] = 1;
    assert!(hash::Hash::from_array([0u8; 64]) < hash::Hash::from_array(last));
}

fn blake2(bytes: &[u8]) -> Vec<u8> {
    let mut hasher = Blake2b512::new();
    hasher.update(bytes);
    hasher.finalize().to_vec()
}

#[test]
fn event_digest_is_blake2_of_the_canonical_bytes() {
    let parents = Parents {
        self_parent: hash::Hash::from_array(hex64(HASH_1)),
        other_parent: hash::Hash::from_array(hex64(HASH_2)),
    };
    let user_payload = payload("some payload".to_owned());
    let event = SignedEvent::new_fakely_signed(
        user_payload.clone(),
        Kind::Regular(parents),
        0x0102030405060708,
        0x1112131415161718_2122232425262728,
    );
    // payload, kind, author, timestamp, as bincode writes them
    let mut canonical = user_payload.clone();
    canonical.extend(bincode::serialize(&1u32).unwrap());
    canonical.extend(hex64(HASH_1));
    canonical.extend(hex64(HASH_2));
    canonical.extend(bincode::serialize(&0x0102030405060708u64).unwrap());
    canonical.extend(bincode::serialize(&0x1112131415161718_2122232425262728u128).unwrap());
    assert_eq!(event.unsigned().fields().digest(), canonical);
    assert_eq!(canonical.len(), 20 + 4 + 128 + 8 + 16);
    assert_eq!(&canonical[20..24], &[1, 0, 0, 0]);
    assert_eq!(&canonical[152..160], &[8, 7, 6, 5, 4, 3, 2, 1]);
    assert_eq!(event.hash().as_ref().to_vec(), blake2(&canonical));
    assert_ne!(event.hash().as_ref().to_vec(), canonical);
    // the fake signature is the digest
    assert_eq!(event.signature().0, *event.hash());

    let event = SignedEvent::new_fakely_signed(vec![], Kind::Genesis(vec![9, 9]), 3, 4);
    let mut canonical = bincode::serialize(&0u32).unwrap();
    canonical.extend([9, 9]);
    canonical.extend(bincode::serialize(&3u64).unwrap());
    canonical.extend(bincode::serialize(&4u128).unwrap());
    assert_eq!(event.unsigned().fields().digest(), canonical);
    assert_eq!(event.hash().as_ref().to_vec(), blake2(&canonical));
    // the digest of no bytes but the tag, the author and the timestamp
    let plain = UnsignedEvent::new(EventFields::new(vec![], Kind::Genesis(vec![]), 0, 0));
    assert_eq!(plain.hash().as_ref().to_vec(), blake2(&[0u8; 28]));
    assert_eq!(*plain.fields().author(), 0);
    assert_eq!(*plain.fields().timestamp(), 0);
    assert!(plain.fields().user_payload().is_empty());
    assert!(matches!(plain.fields().kind(), Kind::Genesis(p) if p.is_empty()));
}

#[test]
fn signing_and_verifying() {
    let key = hash::Hash::from_array([0x5a; 64]);
    let sign = |digest: &hash::Hash| Signature(digest.xor(&key));
    let verify =
        |digest: &hash::Hash, signature: &Signature, author: &u64| -> bool {
            *author == 7 && signature.0.xor(&key) == *digest
        };
    let event = SignedEvent::new(vec![1, 2, 3], Kind::Genesis(vec![]), 7, 99, sign);
    assert_eq!(event.signature().0, event.hash().xor(&key));
    assert_eq!(event.unsigned().fields().user_payload(), &vec![1, 2, 3]);
    assert_eq!(*event.unsigned().fields().author(), 7);
    assert_eq!(*event.unsigned().fields().timestamp(), 99);
    let digest = *event.hash();

    let (unsigned, signature) = event.into_parts();
    assert_eq!(*unsigned.hash(), digest);
    let again = SignedEvent::with_signature(unsigned.clone(), signature, verify).unwrap();
    assert_eq!(*again.hash(), digest);
    assert_eq!(*again.signature(), signature);
    // a signature that does not match
    let wrong = SignedEvent::with_signature(unsigned.clone(), Signature(digest), verify);
    assert!(matches!(wrong, Err(WithSignatureCreationError::InvalidSignature)));
    // an author that does not match
    let other = UnsignedEvent::new(EventFields::new(vec![1, 2, 3], Kind::Genesis(vec![]), 8, 99));
    let wrong = SignedEvent::with_signature(other.clone(), sign(other.hash()), verify);
    assert!(matches!(wrong, Err(WithSignatureCreationError::InvalidSignature)));
}

#[test]
fn wrapper_getters_and_child_pointers() {
    let parents = Parents {
        self_parent: hash::Hash::from_array(hex64(HASH_1)),
        other_parent: hash::Hash::from_array(hex64(HASH_2)),
    };
    let mut wrapper = EventWrapper::new_fakely_signed(vec![5], Kind::Regular(parents), 11, 12);
    assert_eq!(wrapper.payload(), &vec![5]);
    assert_eq!(*wrapper.author(), 11);
    assert_eq!(*wrapper.timestamp(), 12);
    assert_eq!(wrapper.signature().0, *wrapper.hash());
    assert_eq!(wrapper.inner().hash(), wrapper.hash());
    assert!(matches!(wrapper.kind(), Kind::Regular(p) if p.self_parent == parents.self_parent));
    assert!(
        wrapper.kind().clone().into_parents() == vec![parents.self_parent, parents.other_parent]
    );
    assert!(genesis().into_parents().is_empty());
    assert!(matches!(
        &wrapper.children().self_child,
        SelfChild::HonestParent(None)
    ));
    assert!(wrapper.children().other_children.is_empty());

    let a = hash::Hash::from_array([1; 64]);
    let b = hash::Hash::from_array([2; 64]);
    let c = hash::Hash::from_array([3; 64]);
    assert!(!wrapper.add_self_child(a));
    wrapper.add_other_child(b);
    wrapper.add_other_child(c);
    assert!(matches!(&wrapper.children().self_child, SelfChild::HonestParent(Some(h)) if *h == a));
    assert!(wrapper.children().other_children == vec![b, c]);
    assert!(wrapper.children().clone().into_vec() == vec![a, b, c]);
    assert!(wrapper.add_self_child(b));
    assert!(wrapper.children().clone().into_vec() == vec![b, a, b, c]);
    let copy = wrapper.clone();
    assert_eq!(copy.hash(), wrapper.hash());
    assert!(copy.children().clone().into_vec() == vec![b, a, b, c]);
}

#[test]
fn self_child_transitions() {
    let a = hash::Hash::from_array([1; 64]);
    let b = hash::Hash::from_array([2; 64]);
    let c = hash::Hash::from_array([3; 64]);
    let mut child = SelfChild::HonestParent(None);
    assert!(child.clone().into_vec().is_empty());
    // the first child is honest
    assert!(!child.add_child(a));
    assert!(matches!(&child, SelfChild::HonestParent(Some(h)) if *h == a));
    // the second makes a fork, the new child first
    assert!(child.add_child(b));
    assert!(matches!(&child, SelfChild::ForkingParent(v) if *v == vec![b, a]));
    // more children are appended
    assert!(child.add_child(c));
    assert!(matches!(&child, SelfChild::ForkingParent(v) if *v == vec![b, a, c]));
    assert!(child.clone().into_vec() == vec![b, a, c]);

    // removing children
    let two = child.clone().with_child_removed(&a);
    assert!(matches!(&two, SelfChild::ForkingParent(v) if *v == vec![b, c]));
    let one = two.with_child_removed(&c);
    assert!(matches!(&one, SelfChild::HonestParent(Some(h)) if *h == b));
    let same = one.clone().with_child_removed(&a);
    assert!(matches!(&same, SelfChild::HonestParent(Some(h)) if *h == b));
    let none = one.with_child_removed(&b);
    assert!(matches!(&none, SelfChild::HonestParent(None)));
    let twice = SelfChild::ForkingParent(vec![a, b, a]).with_child_removed(&a);
    assert!(matches!(&twice, SelfChild::HonestParent(Some(h)) if *h == b));

    // from lists
    assert!(matches!(SelfChild::from_vec(vec![]), SelfChild::HonestParent(None)));
    assert!(matches!(SelfChild::from_vec(vec![c]), SelfChild::HonestParent(Some(h)) if h == c));
    assert!(matches!(SelfChild::from(vec![c, a]), SelfChild::ForkingParent(v) if v == vec![c, a]));
    let children = Children {
        self_child: SelfChild::ForkingParent(vec![a, b]),
        other_children: vec![c],
    };
    assert!(children.into_vec() == vec![a, b, c]);
}

#[test]
fn wire_bytes_round_trip() {
    for wrapper in create_events() {
        let event = wrapper.inner();
        let bytes = event.encode();
        let decoded = SignedEvent::decode(&bytes).unwrap();
        // the digest of the decoded event is that of the event
        assert_eq!(decoded.hash(), event.hash());
        assert_eq!(decoded.signature(), event.signature());
        assert_eq!(
            decoded.unsigned().fields().user_payload(),
            event.unsigned().fields().user_payload()
        );
        assert_eq!(
            decoded.unsigned().fields().author(),
            event.unsigned().fields().author()
        );
        assert_eq!(
            decoded.unsigned().fields().timestamp(),
            event.unsigned().fields().timestamp()
        );
        assert_eq!(decoded.encode(), bytes);
        assert!(
            decoded.unsigned().fields().kind().clone().into_parents()
                == event.unsigned().fields().kind().clone().into_parents()
        );
    }
}

#[test]
fn wire_bytes_are_those_of_bincode() {
    let sp = hex64(HASH_1);
    let op = hex64(HASH_2);
    let parents = Parents {
        self_parent: hash::Hash::from_array(sp),
        other_parent: hash::Hash::from_array(op),
    };
    let event = SignedEvent::new_fakely_signed(vec![1, 2, 3], Kind::Regular(parents), 5, 6);
    let digest = event.hash().into_array();
    let halves = |bytes: &[u8; 64]| -> ([u8; 32], [u8; 32]) {
        (bytes[..32].try_into().unwrap(), bytes[32..].try_into().unwrap())
    };
    let expected = bincode::serialize(&(
        vec![1u8, 2, 3],
        1u32,
        halves(&sp),
        halves(&op),
        5u64,
        6u128,
        halves(&digest),
        halves(&digest),
    ))
    .unwrap();
    assert_eq!(event.encode(), expected);
    assert_eq!(expected.len(), 8 + 3 + 4 + 128 + 8 + 16 + 64 + 64);

    let event = SignedEvent::new_fakely_signed(vec![], Kind::Genesis(vec![7, 7]), 5, 6);
    let digest = event.hash().into_array();
    let expected = bincode::serialize(&(
        Vec::<u8>::new(),
        0u32,
        vec![7u8, 7],
        5u64,
        6u128,
        halves(&digest),
        halves(&digest),
    ))
    .unwrap();
    assert_eq!(event.encode(), expected);
}

#[test]
fn decode_refuses_what_is_no_event() {
    let event = SignedEvent::new_fakely_signed(vec![1, 2, 3], Kind::Genesis(vec![4]), 5, 6);
    let bytes = event.encode();
    assert!(SignedEvent::decode(&bytes).is_some());
    assert!(SignedEvent::decode(&[]).is_none());
    // cut short, at every length
    for len in 0..bytes.len() {
        assert!(SignedEvent::decode(&bytes[..len]).is_none());
    }
    // bytes after the event
    let mut longer = bytes.clone();
    longer.push(0);
    assert!(SignedEvent::decode(&longer).is_none());
    // a kind that does not exist
    let mut wrong = bytes.clone();
    wrong[8 + 3] = 2;
    assert!(SignedEvent::decode(&wrong).is_none());
    // a payload that the digest does not fit
    let mut wrong = bytes.clone();
    wrong[8] ^= 1;
    assert!(SignedEvent::decode(&wrong).is_none());
    // a digest that does not fit the fields
    let mut wrong = bytes.clone();
    let at = bytes.len() - 128;
    wrong[at] ^= 1;
    assert!(SignedEvent::decode(&wrong).is_none());
    // a length that reaches past the end
    let mut wrong = bytes.clone();
    wrong[7] = 0xff;
    assert!(SignedEvent::decode(&wrong).is_none());
    // the signature is taken as it stands
    let mut other = bytes.clone();
    let last = other.len() - 1;
    other[last] ^= 1;
    let decoded = SignedEvent::decode(&other).unwrap();
    assert_eq!(decoded.hash(), event.hash());
    assert!(decoded.signature() != event.signature());
}

#[test]
fn compact_rendering() {
    let event = UnsignedEvent::new(EventFields::new(vec![1, 2], Kind::Genesis(vec![]), 3, 4));
    let compact = *event.hash().as_compact();
    assert_eq!(
        event.compact_fmt(),
        format!(
            "UnsignedEvent {{ user_payload: [1, 2], kind: Genesis([]), author: 3, timestamp; 4, hash: {:?} }}",
            compact
        )
    );
    let mut sp = [0u8; 64];
    sp[0] = 1;
    let mut op = [0u8; 64];
    op[63] = 255;
    let parents = Parents {
        self_parent: hash::Hash::from_array(sp),
        other_parent: hash::Hash::from_array(op),
    };
    let event = UnsignedEvent::new(EventFields::new(vec![], Kind::Regular(parents), 30, 40));
    let compact = *event.hash().as_compact();
    assert_eq!(
        event.compact_fmt(),
        format!(
            "UnsignedEvent {{ user_payload: [], kind: Regular(Parents{{ self_parent: [1, 0, 0, 0], other_parent: [0, 0, 0, 255] }}), author: 30, timestamp; 40, hash: {:?} }}",
            compact
        )
    );
}
