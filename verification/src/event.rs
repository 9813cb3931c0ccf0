//! The event model: immutable signed events and the child pointers that the
//! store keeps beside them.

use crate::digest::{blake2b512, blake2b512_digest, extend_bytes};
use crate::hash;
use crate::hash::Signature;
use vstd::bytes::*;
use vstd::prelude::*;
use vstd::string::StringExecFns;

verus! {

/// Identifier of a peer (the author of events).
pub type PeerId = u64;

/// Timestamp set by the author of an event; opaque to this crate.
pub type Timestamp = u128;

/// The two parents of a regular event.
#[derive(Clone, Copy, Debug)]
pub struct Parents {
    pub self_parent: hash::Hash,
    pub other_parent: hash::Hash,
}

/// What an event is: the first event of its author, or one with two parents.
#[derive(Debug)]
pub enum Kind {
    /// First event of a peer, with the encoded genesis payload.
    Genesis(Vec<u8>),
    /// Event with a self parent and another parent.
    Regular(Parents),
}

/// Mathematical value of a [`Kind`].
pub enum KindView {
    Genesis(Seq<u8>),
    Regular { self_parent: Seq<u8>, other_parent: Seq<u8> },
}

impl View for Kind {
    type V = KindView;

    open spec fn view(&self) -> KindView {
        match self {
            Kind::Genesis(payload) => KindView::Genesis(payload@),
            Kind::Regular(parents) => KindView::Regular {
                self_parent: parents.self_parent@,
                other_parent: parents.other_parent@,
            },
        }
    }
}

impl Clone for Kind {
    fn clone(&self) -> (copy: Kind)
        ensures
            copy@ == self@,
    {
        match self {
            Kind::Genesis(payload) => Kind::Genesis(clone_bytes(payload)),
            Kind::Regular(parents) => Kind::Regular(*parents),
        }
    }
}

/// A copy of a byte vector.
pub fn clone_bytes(bytes: &Vec<u8>) -> (copy: Vec<u8>)
    ensures
        copy@ == bytes@,
{
    let mut copy = Vec::new();
    extend_bytes(&mut copy, bytes.as_slice());
    copy
}

impl Kind {
    /// The parents of the event, self parent first; none for a genesis.
    pub fn into_parents(self) -> (parents: Vec<hash::Hash>)
        ensures
            parents.deep_view() == parents_of(self@),
    {
        let parents = match self {
            Kind::Genesis(_) => Vec::new(),
            Kind::Regular(Parents { self_parent, other_parent }) => {
                let mut both = Vec::new();
                both.push(self_parent);
                both.push(other_parent);
                both
            },
        };
        proof {
            assert(parents.deep_view() =~= parents_of(self@));
        }
        parents
    }
}

/// The parents named by a kind, self parent first.
pub open spec fn parents_of(kind: KindView) -> Seq<Seq<u8>> {
    match kind {
        KindView::Genesis(_) => seq![],
        KindView::Regular { self_parent, other_parent } => seq![self_parent, other_parent],
    }
}

/// Canonical bytes of a kind: the variant index as four little-endian bytes,
/// then the genesis payload, or the two parent digests, self parent first.
pub open spec fn kind_bytes(kind: KindView) -> Seq<u8> {
    match kind {
        KindView::Genesis(payload) => spec_u32_to_le_bytes(0) + payload,
        KindView::Regular { self_parent, other_parent } => spec_u32_to_le_bytes(1) + self_parent
            + other_parent,
    }
}

/// The signed content of an event.
#[derive(Debug)]
pub struct EventFields {
    user_payload: Vec<u8>,
    kind: Kind,
    author: PeerId,
    timestamp: Timestamp,
}

/// Mathematical value of [`EventFields`].
pub struct FieldsView {
    pub user_payload: Seq<u8>,
    pub kind: KindView,
    pub author: PeerId,
    pub timestamp: Timestamp,
}

/// Canonical bytes of an event's fields: payload, kind, author (eight
/// little-endian bytes) and timestamp (sixteen little-endian bytes), in
/// this order.
pub open spec fn digest_of(fields: FieldsView) -> Seq<u8> {
    fields.user_payload + kind_bytes(fields.kind) + spec_u64_to_le_bytes(fields.author)
        + spec_u128_to_le_bytes(fields.timestamp)
}

/// The digest that identifies an event with the given fields.
pub open spec fn event_hash(fields: FieldsView) -> Seq<u8> {
    blake2b512(digest_of(fields))
}

impl View for EventFields {
    type V = FieldsView;

    closed spec fn view(&self) -> FieldsView {
        FieldsView {
            user_payload: self.user_payload@,
            kind: self.kind@,
            author: self.author,
            timestamp: self.timestamp,
        }
    }
}

impl Clone for EventFields {
    fn clone(&self) -> (copy: EventFields)
        ensures
            copy@ == self@,
    {
        EventFields {
            user_payload: clone_bytes(&self.user_payload),
            kind: self.kind.clone(),
            author: self.author,
            timestamp: self.timestamp,
        }
    }
}

impl EventFields {
    pub fn new(user_payload: Vec<u8>, kind: Kind, author: PeerId, timestamp: Timestamp) -> (fields:
        EventFields)
        ensures
            fields@ == (FieldsView { user_payload: user_payload@, kind: kind@, author, timestamp }),
    {
        EventFields { user_payload, kind, author, timestamp }
    }

    pub fn user_payload(&self) -> (payload: &Vec<u8>)
        ensures
            payload@ == self@.user_payload,
    {
        &self.user_payload
    }

    pub fn kind(&self) -> (kind: &Kind)
        ensures
            kind@ == self@.kind,
    {
        &self.kind
    }

    pub fn author(&self) -> (author: &PeerId)
        ensures
            *author == self@.author,
    {
        &self.author
    }

    pub fn timestamp(&self) -> (timestamp: &Timestamp)
        ensures
            *timestamp == self@.timestamp,
    {
        &self.timestamp
    }

    /// The canonical bytes over which the event's digest is taken.
    pub fn digest(&self) -> (bytes: Vec<u8>)
        ensures
            bytes@ == digest_of(self@),
    {
        let mut v: Vec<u8> = Vec::new();
        extend_bytes(&mut v, self.user_payload.as_slice());
        match &self.kind {
            Kind::Genesis(payload) => {
                let tag = u32_to_le_bytes(0);
                extend_bytes(&mut v, tag.as_slice());
                extend_bytes(&mut v, payload.as_slice());
            },
            Kind::Regular(parents) => {
                let tag = u32_to_le_bytes(1);
                extend_bytes(&mut v, tag.as_slice());
                extend_bytes(&mut v, parents.self_parent.as_ref().as_slice());
                extend_bytes(&mut v, parents.other_parent.as_ref().as_slice());
            },
        }
        let author_bytes = u64_to_le_bytes(self.author);
        extend_bytes(&mut v, author_bytes.as_slice());
        let timestamp_bytes = u128_to_le_bytes(self.timestamp);
        extend_bytes(&mut v, timestamp_bytes.as_slice());
        proof {
            assert(v@ =~= digest_of(self@));
        }
        v
    }
}

/// The text that `{:?}` renders a list of bytes as.
pub uninterp spec fn debug_bytes_text(bytes: Seq<u8>) -> Seq<char>;

/// The text that `{:?}` renders a number as.
pub uninterp spec fn debug_number_text(number: u128) -> Seq<char>;

/// Renders `bytes` with the `Debug` formatting of `[u8]`. The contract only
/// names the text.
#[verifier::external_body]
fn debug_bytes(bytes: &[u8]) -> (text: String)
    ensures
        text@ == debug_bytes_text(bytes@),
{
    format!("{:?}", bytes)
}

/// Renders `number` with the `Debug` formatting of `u128`. The contract only
/// names the text.
#[verifier::external_body]
fn debug_number(number: u128) -> (text: String)
    ensures
        text@ == debug_number_text(number),
{
    format!("{:?}", number)
}

/// The compact rendering of the kind of an event.
pub open spec fn compact_kind_text(kind: KindView) -> Seq<char> {
    match kind {
        KindView::Genesis(payload) => "Genesis("@ + debug_bytes_text(payload) + ")"@,
        KindView::Regular { self_parent, other_parent } => "Regular(Parents{ self_parent: "@
            + debug_bytes_text(crate::hash::compact_of(self_parent)) + ", other_parent: "@
            + debug_bytes_text(crate::hash::compact_of(other_parent)) + " })"@,
    }
}

/// The compact rendering of an event: its fields, with the fingerprints of
/// the digests in place of the digests.
pub open spec fn compact_text(event: UnsignedView) -> Seq<char> {
    "UnsignedEvent { user_payload: "@ + debug_bytes_text(event.fields.user_payload) + ", kind: "@
        + compact_kind_text(event.fields.kind) + ", author: "@ + debug_number_text(
        event.fields.author as u128,
    ) + ", timestamp; "@ + debug_number_text(event.fields.timestamp) + ", hash: "@
        + debug_bytes_text(crate::hash::compact_of(event.hash)) + " }"@
}

/// An event's fields together with the digest that identifies it.
#[derive(Debug)]
pub struct UnsignedEvent {
    fields: EventFields,
    hash: hash::Hash,
}

/// Mathematical value of an [`UnsignedEvent`].
pub struct UnsignedView {
    pub fields: FieldsView,
    pub hash: Seq<u8>,
}

impl View for UnsignedEvent {
    type V = UnsignedView;

    closed spec fn view(&self) -> UnsignedView {
        UnsignedView { fields: self.fields@, hash: self.hash@ }
    }
}

impl Clone for UnsignedEvent {
    fn clone(&self) -> (copy: UnsignedEvent)
        ensures
            copy@ == self@,
    {
        proof {
            use_type_invariant(self);
        }
        UnsignedEvent { fields: self.fields.clone(), hash: self.hash }
    }
}

impl UnsignedEvent {
    #[verifier::type_invariant]
    spec fn hash_is_digest_of_fields(self) -> bool {
        self.hash@ == event_hash(self.fields@)
    }

    /// Computes the digest of `fields` and binds it to them.
    pub fn new(fields: EventFields) -> (event: UnsignedEvent)
        ensures
            event@.fields == fields@,
            event@.hash == event_hash(fields@),
    {
        let bytes = fields.digest();
        let digest = blake2b512_digest(bytes.as_slice());
        UnsignedEvent { fields, hash: hash::Hash::from_array(digest) }
    }

    pub fn fields(&self) -> (fields: &EventFields)
        ensures
            fields@ == self@.fields,
    {
        &self.fields
    }

    /// A short rendering of the event for logs, with compact fingerprints in
    /// place of the digests.
    pub fn compact_fmt(&self) -> (text: String)
        ensures
            text@ == compact_text(self@),
    {
        proof {
            use_type_invariant(self);
        }
        let mut text = String::from_str("UnsignedEvent { user_payload: ");
        text.append(debug_bytes(self.fields.user_payload.as_slice()).as_str());
        text.append(", kind: ");
        match &self.fields.kind {
            Kind::Genesis(p) => {
                text.append("Genesis(");
                text.append(debug_bytes(p.as_slice()).as_str());
                text.append(")");
            },
            Kind::Regular(parents) => {
                text.append("Regular(Parents{ self_parent: ");
                text.append(debug_bytes(parents.self_parent.as_compact().as_slice()).as_str());
                text.append(", other_parent: ");
                text.append(debug_bytes(parents.other_parent.as_compact().as_slice()).as_str());
                text.append(" })");
            },
        }
        text.append(", author: ");
        text.append(debug_number(self.fields.author as u128).as_str());
        text.append(", timestamp; ");
        text.append(debug_number(self.fields.timestamp).as_str());
        text.append(", hash: ");
        text.append(debug_bytes(self.hash.as_compact().as_slice()).as_str());
        text.append(" }");
        proof {
            assert(text@ =~= compact_text(self@));
        }
        text
    }

    /// The digest of the event; it is always the digest of its fields.
    pub fn hash(&self) -> (digest: &hash::Hash)
        ensures
            digest@ == self@.hash,
            digest@ == event_hash(self@.fields),
    {
        proof {
            use_type_invariant(self);
        }
        &self.hash
    }
}

/// An event with the signature of its author over its digest.
#[derive(Debug)]
pub struct SignedEvent {
    unsigned: UnsignedEvent,
    /// Digest of the fields of the event, signed by the author.
    signature: Signature,
}

/// Mathematical value of a [`SignedEvent`].
pub struct SignedView {
    pub unsigned: UnsignedView,
    pub signature: Seq<u8>,
}

impl SignedView {
    pub open spec fn hash(self) -> Seq<u8> {
        self.unsigned.hash
    }

    pub open spec fn kind(self) -> KindView {
        self.unsigned.fields.kind
    }

    pub open spec fn author(self) -> PeerId {
        self.unsigned.fields.author
    }

    pub open spec fn is_genesis(self) -> bool {
        self.kind() is Genesis
    }

    pub open spec fn self_parent(self) -> Seq<u8> {
        self.kind()->self_parent
    }

    pub open spec fn other_parent(self) -> Seq<u8> {
        self.kind()->other_parent
    }
}

impl View for SignedEvent {
    type V = SignedView;

    closed spec fn view(&self) -> SignedView {
        SignedView { unsigned: self.unsigned@, signature: self.signature@ }
    }
}

impl Clone for SignedEvent {
    fn clone(&self) -> (copy: SignedEvent)
        ensures
            copy@ == self@,
    {
        SignedEvent { unsigned: self.unsigned.clone(), signature: self.signature }
    }
}

/// Why a signature could not be attached to an event.
#[derive(Debug)]
pub enum WithSignatureCreationError {
    /// The canonical bytes of the event could not be produced.
    DigestError,
    /// The signature does not match the event's contents and author.
    InvalidSignature,
}

impl SignedEvent {
    /// The digest of the event as an executable value, for contracts that
    /// speak of calls made with it.
    pub closed spec fn spec_hash(&self) -> hash::Hash {
        self.unsigned.hash
    }

    /// The signature of the event as an executable value.
    pub closed spec fn spec_signature(&self) -> Signature {
        self.signature
    }

    /// The unsigned part of the event as an executable value.
    pub closed spec fn spec_unsigned(&self) -> UnsignedEvent {
        self.unsigned
    }

    pub fn hash(&self) -> (digest: &hash::Hash)
        ensures
            digest@ == self@.hash(),
            digest@ == event_hash(self@.unsigned.fields),
            *digest == self.spec_hash(),
    {
        proof {
            use_type_invariant(&self.unsigned);
        }
        &self.unsigned.hash
    }

    pub fn signature(&self) -> (signature: &Signature)
        ensures
            signature@ == self@.signature,
            *signature == self.spec_signature(),
    {
        &self.signature
    }

    pub fn unsigned(&self) -> (unsigned: &UnsignedEvent)
        ensures
            unsigned@ == self@.unsigned,
            *unsigned == self.spec_unsigned(),
    {
        &self.unsigned
    }

    /// Puts an event and a signature together without verifying the
    /// signature.
    pub(crate) fn from_parts(unsigned: UnsignedEvent, signature: Signature) -> (event: SignedEvent)
        ensures
            event@.unsigned == unsigned@,
            event@.signature == signature@,
    {
        SignedEvent { unsigned, signature }
    }

    pub fn into_parts(self) -> (parts: (UnsignedEvent, Signature))
        ensures
            parts.0@ == self@.unsigned,
            parts.1@ == self@.signature,
            parts.0 == self.spec_unsigned(),
            parts.1 == self.spec_signature(),
    {
        (self.unsigned, self.signature)
    }

    /// Builds the event, takes its digest and has `sign` sign the digest.
    pub fn new<F>(
        payload: Vec<u8>,
        event_kind: Kind,
        author: PeerId,
        timestamp: Timestamp,
        sign: F,
    ) -> (event: SignedEvent) where F: FnOnce(&hash::Hash) -> Signature
        requires
            forall|digest: &hash::Hash|
                digest@ == event_hash(
                    FieldsView { user_payload: payload@, kind: event_kind@, author, timestamp },
                ) ==> call_requires(sign, (digest,)),
        ensures
            event@.unsigned.fields == (FieldsView {
                user_payload: payload@,
                kind: event_kind@,
                author,
                timestamp,
            }),
            event@.hash() == event_hash(event@.unsigned.fields),
            call_ensures(sign, (&event.spec_hash(),), event.spec_signature()),
    {
        let fields = EventFields { user_payload: payload, kind: event_kind, author, timestamp };
        let unsigned_event = UnsignedEvent::new(fields);
        let signature = sign(&unsigned_event.hash);
        SignedEvent { unsigned: unsigned_event, signature }
    }

    /// Attaches `signature` to `unsigned_event` if `verify_signature` accepts
    /// it for the event's digest and author, and fails with
    /// `InvalidSignature` otherwise.
    pub fn with_signature<F>(
        unsigned_event: UnsignedEvent,
        signature: Signature,
        verify_signature: F,
    ) -> (result: Result<SignedEvent, WithSignatureCreationError>) where
        F: FnOnce(&hash::Hash, &Signature, &PeerId) -> bool,

        requires
            forall|digest: &hash::Hash, author: &PeerId|
                digest@ == unsigned_event@.hash && *author == unsigned_event@.fields.author
                    ==> call_requires(verify_signature, (digest, &signature, author)),
        ensures
            match result {
                Ok(event) => {
                    &&& event.spec_unsigned() == unsigned_event
                    &&& event.spec_signature() == signature
                    &&& event@.unsigned == unsigned_event@
                    &&& event@.signature == signature@
                    &&& exists|digest: &hash::Hash, author: &PeerId|
                        digest@ == unsigned_event@.hash && *author == unsigned_event@.fields.author
                            && call_ensures(verify_signature, (digest, &signature, author), true)
                },
                Err(error) => {
                    &&& error is InvalidSignature
                    &&& exists|digest: &hash::Hash, author: &PeerId|
                        digest@ == unsigned_event@.hash && *author == unsigned_event@.fields.author
                            && call_ensures(verify_signature, (digest, &signature, author), false)
                },
            },
    {
        let hash = unsigned_event.hash;
        if verify_signature(&hash, &signature, &unsigned_event.fields.author) {
            Ok(SignedEvent { unsigned: unsigned_event, signature })
        } else {
            Err(WithSignatureCreationError::InvalidSignature)
        }
    }

    /// An event whose signature is just its digest. No signing takes place:
    /// meant for stores that do not check signatures.
    pub fn new_fakely_signed(
        payload: Vec<u8>,
        event_kind: Kind,
        author: PeerId,
        timestamp: Timestamp,
    ) -> (event: SignedEvent)
        ensures
            event@.unsigned.fields == (FieldsView {
                user_payload: payload@,
                kind: event_kind@,
                author,
                timestamp,
            }),
            event@.hash() == event_hash(event@.unsigned.fields),
            event@.signature == event@.hash(),
    {
        let fields = EventFields { user_payload: payload, kind: event_kind, author, timestamp };
        let unsigned_event = UnsignedEvent::new(fields);
        let signature = Signature(unsigned_event.hash);
        SignedEvent { unsigned: unsigned_event, signature }
    }
}

/// Events of the same author that name one event as their self parent.
#[derive(Debug)]
pub enum SelfChild {
    /// At most one self child: the author is honest at this event.
    HonestParent(Option<hash::Hash>),
    /// Several self children: the author forked at this event.
    ForkingParent(Vec<hash::Hash>),
}

/// Mathematical value of a [`SelfChild`].
pub enum SelfChildView {
    NoChild,
    HonestChild(Seq<u8>),
    Forking(Seq<Seq<u8>>),
}

impl SelfChildView {
    /// The self children as a list.
    pub open spec fn list(self) -> Seq<Seq<u8>> {
        match self {
            SelfChildView::NoChild => seq![],
            SelfChildView::HonestChild(child) => seq![child],
            SelfChildView::Forking(children) => children,
        }
    }

    /// The value that holds the given self children: lists of two or more
    /// make a fork.
    pub open spec fn from_list(children: Seq<Seq<u8>>) -> SelfChildView {
        if children.len() == 0 {
            SelfChildView::NoChild
        } else if children.len() == 1 {
            SelfChildView::HonestChild(children[0])
        } else {
            SelfChildView::Forking(children)
        }
    }

    /// The value after one more self child was recorded.
    pub open spec fn with_child(self, child: Seq<u8>) -> SelfChildView {
        match self {
            SelfChildView::NoChild => SelfChildView::HonestChild(child),
            SelfChildView::HonestChild(first) => SelfChildView::Forking(seq![child, first]),
            SelfChildView::Forking(children) => SelfChildView::Forking(children.push(child)),
        }
    }
}

impl View for SelfChild {
    type V = SelfChildView;

    open spec fn view(&self) -> SelfChildView {
        match self {
            SelfChild::HonestParent(None) => SelfChildView::NoChild,
            SelfChild::HonestParent(Some(child)) => SelfChildView::HonestChild(child@),
            SelfChild::ForkingParent(children) => SelfChildView::Forking(children.deep_view()),
        }
    }
}

/// A copy of a list of digests.
pub fn clone_hashes(hashes: &Vec<hash::Hash>) -> (copy: Vec<hash::Hash>)
    ensures
        copy.deep_view() == hashes.deep_view(),
        copy@ == hashes@,
{
    let mut copy: Vec<hash::Hash> = Vec::new();
    let mut i: usize = 0;
    while i < hashes.len()
        invariant
            i <= hashes.len(),
            copy@ == hashes@.subrange(0, i as int),
        decreases hashes.len() - i,
    {
        copy.push(hashes[i]);
        i = i + 1;
    }
    proof {
        assert(hashes@.subrange(0, i as int) == hashes@);
        assert(copy.deep_view() =~= hashes.deep_view());
    }
    copy
}

impl Clone for SelfChild {
    fn clone(&self) -> (copy: SelfChild)
        ensures
            copy@ == self@,
    {
        match self {
            SelfChild::HonestParent(child) => SelfChild::HonestParent(*child),
            SelfChild::ForkingParent(children) => SelfChild::ForkingParent(clone_hashes(children)),
        }
    }
}

impl From<Vec<hash::Hash>> for SelfChild {
    fn from(value: Vec<hash::Hash>) -> (result: SelfChild) {
        if value.len() == 0 {
            SelfChild::HonestParent(None)
        } else if value.len() == 1 {
            SelfChild::HonestParent(Some(value[0]))
        } else {
            SelfChild::ForkingParent(value)
        }
    }
}

impl vstd::std_specs::convert::FromSpecImpl<Vec<hash::Hash>> for SelfChild {
    open spec fn obeys_from_spec() -> bool {
        true
    }

    /// Lists of two or more children make a fork.
    open spec fn from_spec(value: Vec<hash::Hash>) -> SelfChild {
        if value@.len() == 0 {
            SelfChild::HonestParent(None)
        } else if value@.len() == 1 {
            SelfChild::HonestParent(Some(value@[0]))
        } else {
            SelfChild::ForkingParent(value)
        }
    }
}

impl SelfChild {
    /// Records one more self child. Returns `true` if the parent is forking
    /// afterwards, that is, if it had a self child already.
    pub fn add_child(&mut self, child: hash::Hash) -> (dishonesty: bool)
        ensures
            final(self)@ == old(self)@.with_child(child@),
            dishonesty == !(old(self)@ is NoChild),
    {
        match self {
            SelfChild::HonestParent(self_child_entry) => {
                match self_child_entry {
                    None => {
                        *self = SelfChild::HonestParent(Some(child));
                        false
                    },
                    Some(child_2) => {
                        let mut both: Vec<hash::Hash> = Vec::new();
                        both.push(child);
                        both.push(*child_2);
                        proof {
                            assert(both.deep_view() =~= seq![child@, child_2@]);
                        }
                        *self = SelfChild::ForkingParent(both);
                        true
                    },
                }
            },
            SelfChild::ForkingParent(children) => {
                let ghost before = children.deep_view();
                children.push(child);
                proof {
                    assert(children.deep_view() =~= before.push(child@));
                }
                true
            },
        }
    }

    /// The self children as a list.
    pub fn into_vec(self) -> (children: Vec<hash::Hash>)
        ensures
            children.deep_view() == self@.list(),
    {
        let children = match self {
            SelfChild::HonestParent(None) => Vec::new(),
            SelfChild::HonestParent(Some(child)) => {
                let mut one = Vec::new();
                one.push(child);
                one
            },
            SelfChild::ForkingParent(children_list) => children_list,
        };
        proof {
            assert(children.deep_view() =~= self@.list());
        }
        children
    }

    /// The value that holds the given self children.
    pub fn from_vec(value: Vec<hash::Hash>) -> (result: SelfChild)
        ensures
            result@ == SelfChildView::from_list(value.deep_view()),
    {
        if value.len() == 0 {
            SelfChild::HonestParent(None)
        } else if value.len() == 1 {
            SelfChild::HonestParent(Some(value[0]))
        } else {
            SelfChild::ForkingParent(value)
        }
    }

    /// The value without the self children equal to `child`.
    pub fn with_child_removed(self, child: &hash::Hash) -> (result: SelfChild)
        ensures
            result@ == SelfChildView::from_list(
                self@.list().filter(|other: Seq<u8>| other != child@),
            ),
    {
        let ghost keep = |other: Seq<u8>| other != child@;
        let ghost all = self@.list();
        let self_children_vec = self.into_vec();
        let mut kept: Vec<hash::Hash> = Vec::new();
        let mut i: usize = 0;
        while i < self_children_vec.len()
            invariant
                i <= self_children_vec.len(),
                self_children_vec.deep_view() == all,
                keep == |other: Seq<u8>| other != child@,
                kept.deep_view() == all.subrange(0, i as int).filter(keep),
            decreases self_children_vec.len() - i,
        {
            let ghost before = kept.deep_view();
            proof {
                let next = all.subrange(0, i + 1);
                assert(next.drop_last() == all.subrange(0, i as int));
                assert(next.last() == self_children_vec[i as int]@);
                reveal(Seq::filter);
            }
            if self_children_vec[i] != *child {
                kept.push(self_children_vec[i]);
                proof {
                    assert(kept.deep_view() =~= before.push(self_children_vec[i as int]@));
                }
            }
            i = i + 1;
        }
        proof {
            assert(all.subrange(0, i as int) == all);
        }
        SelfChild::from_vec(kept)
    }
}

/// The child pointers of an event.
#[derive(Debug)]
pub struct Children {
    /// Child (children in case of forks) with the same author.
    pub self_child: SelfChild,
    /// Children created by other peers.
    pub other_children: Vec<hash::Hash>,
}

/// Mathematical value of [`Children`].
pub struct ChildrenView {
    pub self_child: SelfChildView,
    pub other_children: Seq<Seq<u8>>,
}

impl ChildrenView {
    /// All children: the self children, then the others.
    pub open spec fn list(self) -> Seq<Seq<u8>> {
        self.self_child.list() + self.other_children
    }
}

impl View for Children {
    type V = ChildrenView;

    open spec fn view(&self) -> ChildrenView {
        ChildrenView {
            self_child: self.self_child@,
            other_children: self.other_children.deep_view(),
        }
    }
}

impl Clone for Children {
    fn clone(&self) -> (copy: Children)
        ensures
            copy@ == self@,
    {
        Children {
            self_child: self.self_child.clone(),
            other_children: clone_hashes(&self.other_children),
        }
    }
}

impl Children {
    /// All children: the self children, then the others.
    pub fn into_vec(self) -> (children: Vec<hash::Hash>)
        ensures
            children.deep_view() == self@.list(),
    {
        let ghost others = self.other_children.deep_view();
        let ghost own = self.self_child@.list();
        let mut result = self.self_child.into_vec();
        let mut i: usize = 0;
        while i < self.other_children.len()
            invariant
                i <= self.other_children.len(),
                self.other_children.deep_view() == others,
                result.deep_view() == own + others.subrange(0, i as int),
            decreases self.other_children.len() - i,
        {
            let ghost before = result.deep_view();
            result.push(self.other_children[i]);
            proof {
                assert(result.deep_view() =~= before.push(self.other_children[i as int]@));
                assert(result.deep_view() =~= own + others.subrange(0, i + 1));
            }
            i = i + 1;
        }
        proof {
            assert(others.subrange(0, i as int) == others);
        }
        result
    }
}

/// A signed event together with the child pointers that the store maintains.
#[derive(Debug)]
pub struct EventWrapper {
    pub children: Children,
    inner: SignedEvent,
}

impl Clone for EventWrapper {
    fn clone(&self) -> (copy: EventWrapper)
        ensures
            copy.spec_inner()@ == self.spec_inner()@,
            copy.spec_children() == self.spec_children(),
    {
        EventWrapper { children: self.children.clone(), inner: self.inner.clone() }
    }
}

impl EventWrapper {
    /// The wrapped event as an executable value.
    pub closed spec fn spec_inner(&self) -> SignedEvent {
        self.inner
    }

    /// The child pointers kept beside the event.
    pub closed spec fn spec_children(&self) -> ChildrenView {
        self.children@
    }

    /// The event's value: that of the signed event it wraps.
    pub open spec fn event(&self) -> SignedView {
        self.spec_inner()@
    }

    /// Wraps an event that has no children yet.
    pub fn new(inner: SignedEvent) -> (wrapper: EventWrapper)
        ensures
            wrapper.spec_inner() == inner,
            wrapper.spec_children() == (ChildrenView {
                self_child: SelfChildView::NoChild,
                other_children: seq![],
            }),
    {
        let wrapper = EventWrapper {
            children: Children {
                self_child: SelfChild::HonestParent(None),
                other_children: Vec::new(),
            },
            inner,
        };
        proof {
            assert(wrapper.children.other_children.deep_view() =~= seq![]);
        }
        wrapper
    }

    /// Records `child` as one more self child of the event. Returns `true`
    /// if the event has several self children afterwards.
    pub fn add_self_child(&mut self, child: hash::Hash) -> (dishonesty: bool)
        ensures
            final(self).spec_inner() == old(self).spec_inner(),
            final(self).spec_children() == (ChildrenView {
                self_child: old(self).spec_children().self_child.with_child(child@),
                other_children: old(self).spec_children().other_children,
            }),
            dishonesty == !(old(self).spec_children().self_child is NoChild),
    {
        self.children.self_child.add_child(child)
    }

    /// Records `child` as one more child by another peer.
    pub fn add_other_child(&mut self, child: hash::Hash)
        ensures
            final(self).spec_inner() == old(self).spec_inner(),
            final(self).spec_children() == (ChildrenView {
                self_child: old(self).spec_children().self_child,
                other_children: old(self).spec_children().other_children.push(child@),
            }),
    {
        let ghost before = self.children.other_children.deep_view();
        self.children.other_children.push(child);
        proof {
            assert(self.children.other_children.deep_view() =~= before.push(child@));
        }
    }

    /// The child pointers of the event.
    pub fn children(&self) -> (children: &Children)
        ensures
            children@ == self.spec_children(),
    {
        &self.children
    }

    pub fn inner(&self) -> (inner: &SignedEvent)
        ensures
            *inner == self.spec_inner(),
    {
        &self.inner
    }

    /// An event without children whose signature is just its digest.
    pub fn new_fakely_signed(
        payload: Vec<u8>,
        event_kind: Kind,
        author: PeerId,
        timestamp: Timestamp,
    ) -> (wrapper: EventWrapper)
        ensures
            wrapper.event().unsigned.fields == (FieldsView {
                user_payload: payload@,
                kind: event_kind@,
                author,
                timestamp,
            }),
            wrapper.event().hash() == event_hash(wrapper.event().unsigned.fields),
            wrapper.event().signature == wrapper.event().hash(),
            wrapper.spec_children() == (ChildrenView {
                self_child: SelfChildView::NoChild,
                other_children: seq![],
            }),
    {
        let unsigned_event = SignedEvent::new_fakely_signed(payload, event_kind, author, timestamp);
        EventWrapper::new(unsigned_event)
    }

    pub fn hash(&self) -> (digest: &hash::Hash)
        ensures
            digest@ == self.event().hash(),
            digest@ == event_hash(self.event().unsigned.fields),
    {
        self.inner.hash()
    }

    pub fn signature(&self) -> (signature: &Signature)
        ensures
            signature@ == self.event().signature,
    {
        self.inner.signature()
    }

    pub fn kind(&self) -> (kind: &Kind)
        ensures
            kind@ == self.event().kind(),
    {
        self.inner.unsigned().fields().kind()
    }

    pub fn payload(&self) -> (payload: &Vec<u8>)
        ensures
            payload@ == self.event().unsigned.fields.user_payload,
    {
        self.inner.unsigned().fields().user_payload()
    }

    pub fn author(&self) -> (author: &PeerId)
        ensures
            *author == self.event().author(),
    {
        self.inner.unsigned().fields().author()
    }

    pub fn timestamp(&self) -> (timestamp: &Timestamp)
        ensures
            *timestamp == self.event().unsigned.fields.timestamp,
    {
        self.inner.unsigned().fields().timestamp()
    }
}

} // verus!
