//! The event store: events in insertion order with their navigation records,
//! the peer index and the round index, and the invariant that ties them.

use crate::event::{
    event_hash, ChildrenView, EventWrapper, FieldsView, KindView, PeerId, SelfChildView, SignedView,
    UnsignedView,
};
use crate::hash;
use std::collections::HashMap;
use vstd::prelude::*;

verus! {

broadcast use vstd::std_specs::hash::group_hash_axioms;

/// Number of a round; rounds start at 0.
pub type RoundNum = usize;

/// Whether a witness was decided to be famous.
#[derive(Clone, Copy, Debug, PartialEq, Eq, Structural)]
pub enum WitnessFamousness {
    Undecided,
    Yes,
    No,
}

/// What is pushed: a first event, or an event whose other parent is named.
/// The self parent is always the latest event of the author.
#[derive(Clone, Copy, Debug)]
pub enum PushKind {
    Genesis,
    Regular(hash::Hash),
}

/// Why an event was not admitted.
#[derive(Clone, Copy, Debug)]
pub enum PushError {
    /// An event with this digest is in the store already.
    NodeAlreadyExists(hash::Hash),
    /// The author has a genesis already.
    GenesisAlreadyExists,
    /// The author has no genesis yet.
    PeerNotFound(PeerId),
    /// A parent with this digest is not in the store.
    NoParent(hash::Hash),
    /// The self parent was written by the first peer, not by the second.
    IncorrectAuthor(PeerId, PeerId),
    /// The self parent has this self child already.
    SelfChildAlreadyExists(hash::Hash),
}

/// Mathematical value of a [`PushError`].
pub enum PushErrorView {
    NodeAlreadyExists(Seq<u8>),
    GenesisAlreadyExists,
    PeerNotFound(PeerId),
    NoParent(Seq<u8>),
    IncorrectAuthor(PeerId, PeerId),
    SelfChildAlreadyExists(Seq<u8>),
}

impl View for PushError {
    type V = PushErrorView;

    open spec fn view(&self) -> PushErrorView {
        match self {
            PushError::NodeAlreadyExists(h) => PushErrorView::NodeAlreadyExists(h@),
            PushError::GenesisAlreadyExists => PushErrorView::GenesisAlreadyExists,
            PushError::PeerNotFound(p) => PushErrorView::PeerNotFound(*p),
            PushError::NoParent(h) => PushErrorView::NoParent(h@),
            PushError::IncorrectAuthor(a, b) => PushErrorView::IncorrectAuthor(*a, *b),
            PushError::SelfChildAlreadyExists(h) => PushErrorView::SelfChildAlreadyExists(h@),
        }
    }
}

/// The error of a fame query on an event that is no witness.
#[derive(Clone, Copy, Debug, PartialEq, Eq, Structural)]
pub struct NotWitness;

/// What the store knows of one peer.
#[derive(Clone, Copy, Debug)]
pub struct PeerIndexEntry {
    pub(crate) genesis: hash::Hash,
    pub(crate) latest_event: hash::Hash,
    pub(crate) forking: bool,
    pub(crate) genesis_at: usize,
    pub(crate) latest_at: usize,
}

impl PeerIndexEntry {
    /// The entry of a peer whose only event is its genesis, stored at
    /// position `at`.
    pub(crate) fn new(genesis: hash::Hash, at: usize) -> (entry: PeerIndexEntry)
        ensures
            entry.genesis == genesis,
            entry.latest_event == genesis,
            !entry.forking,
            entry.genesis_at == at,
            entry.latest_at == at,
    {
        PeerIndexEntry { genesis, latest_event: genesis, forking: false, genesis_at: at, latest_at: at }
    }

    /// The entry after the peer wrote the event `latest`, stored at
    /// position `at`; `forked` tells whether its self parent had a self child
    /// already.
    pub(crate) fn add_latest(&mut self, latest: hash::Hash, at: usize, forked: bool)
        ensures
            final(self).genesis == old(self).genesis,
            final(self).genesis_at == old(self).genesis_at,
            final(self).latest_event == latest,
            final(self).latest_at == at,
            final(self).forking == (old(self).forking || forked),
    {
        self.latest_event = latest;
        self.latest_at = at;
        if forked {
            self.forking = true;
        }
    }

    pub open(crate) spec fn spec_genesis(&self) -> Seq<u8> {
        self.genesis@
    }

    pub open(crate) spec fn spec_latest_event(&self) -> Seq<u8> {
        self.latest_event@
    }

    pub open(crate) spec fn spec_forking(&self) -> bool {
        self.forking
    }

    pub fn genesis(&self) -> (digest: &hash::Hash)
        ensures
            digest@ == self.spec_genesis(),
    {
        &self.genesis
    }

    pub fn latest_event(&self) -> (digest: &hash::Hash)
        ensures
            digest@ == self.spec_latest_event(),
    {
        &self.latest_event
    }

    /// Whether the peer was seen to give two events the same self parent.
    pub fn is_forking(&self) -> (forking: bool)
        ensures
            forking == self.spec_forking(),
    {
        self.forking
    }
}

/// One stored event with its navigation record: where its parents and
/// children stand in the store, its round, and its entry in the witness
/// registry if it is a witness.
pub(crate) struct Entry {
    pub(crate) event: EventWrapper,
    pub(crate) parents: Option<(usize, usize)>,
    pub(crate) children: Vec<usize>,
    pub(crate) round: RoundNum,
    pub(crate) fame: Option<WitnessFamousness>,
}

/// A hashgraph: the events known to this peer and what was computed of them.
pub struct Graph {
    pub(crate) entries: Vec<Entry>,
    pub(crate) peer_index: HashMap<PeerId, PeerIndexEntry>,
    pub(crate) round_index: Vec<Vec<usize>>,
    pub(crate) self_id: PeerId,
    /// Every `coin_frequency`-th round of an election is a coin round.
    pub(crate) coin_frequency: usize,
}

impl Graph {
    // ----- the store, by position -----

    /// Number of stored events.
    pub open(crate) spec fn size(&self) -> int {
        self.entries@.len() as int
    }

    pub open(crate) spec fn event_at(&self, i: int) -> SignedView {
        self.entries@[i].event.event()
    }

    pub open(crate) spec fn hash_at(&self, i: int) -> Seq<u8> {
        self.event_at(i).hash()
    }

    pub open(crate) spec fn author_at(&self, i: int) -> PeerId {
        self.event_at(i).author()
    }

    pub open(crate) spec fn is_genesis_at(&self, i: int) -> bool {
        self.entries@[i].parents is None
    }

    /// Position of the self parent of the regular event at `i`.
    pub open(crate) spec fn sp(&self, i: int) -> int {
        self.entries@[i].parents.unwrap().0 as int
    }

    /// Position of the other parent of the regular event at `i`.
    pub open(crate) spec fn op(&self, i: int) -> int {
        self.entries@[i].parents.unwrap().1 as int
    }

    pub open(crate) spec fn round_at(&self, i: int) -> int {
        self.entries@[i].round as int
    }

    pub open(crate) spec fn witness_at(&self, i: int) -> bool {
        self.entries@[i].fame is Some
    }

    /// `j` names `i` as one of its parents.
    pub open(crate) spec fn child_of(&self, j: int, i: int) -> bool {
        0 <= j < self.size() && !self.is_genesis_at(j) && (self.sp(j) == i || self.op(j) == i)
    }

    /// Number of peers with a genesis in the store.
    pub open(crate) spec fn members(&self) -> nat {
        self.peer_index@.len()
    }

    /// The strict threshold of every supermajority test: `2n/3`, rounded down.
    pub open(crate) spec fn threshold(&self) -> int {
        (2 * (self.members() as int)) / 3
    }

    // ----- ancestry, by position -----

    /// `y` is `x` or can be reached from `x` by parent links.
    pub open(crate) spec fn anc(&self, x: int, y: int) -> bool
        decreases x,
    {
        0 <= y <= x < self.size() && (x == y || (!self.is_genesis_at(x) && 0 <= self.sp(x) < x && 0
            <= self.op(x) < x && (self.anc(self.sp(x), y) || self.anc(self.op(x), y))))
    }

    /// Authors of the ancestors of `x` that have `y` as an ancestor.
    pub open(crate) spec fn seers_at(&self, x: int, y: int) -> Set<PeerId> {
        Set::new(
            |p: PeerId|
                exists|a: int| #[trigger] self.anc(x, a) && self.anc(a, y) && self.author_at(a) == p,
        )
    }

    /// More than `2n/3` peers wrote events on paths from `x` to `y`.
    pub open(crate) spec fn strongly_sees_at(&self, x: int, y: int) -> bool {
        self.seers_at(x, y).len() > self.threshold()
    }

    // ----- rounds, by position -----

    /// The greater of the rounds of the two parents of the regular event
    /// at `e`.
    pub open(crate) spec fn parent_round_at(&self, e: int) -> int {
        if self.round_at(self.sp(e)) >= self.round_at(self.op(e)) {
            self.round_at(self.sp(e))
        } else {
            self.round_at(self.op(e))
        }
    }

    /// Authors of the witnesses of round `r`, other than `e` itself, that
    /// the event at `e` strongly sees.
    pub open(crate) spec fn witnesses_seen_at(&self, e: int, r: int) -> Set<PeerId> {
        Set::new(
            |p: PeerId|
                exists|w: int|
                    0 <= w < self.size() && w != e && #[trigger] self.round_at(w) == r
                        && self.witness_at(w) && self.strongly_sees_at(e, w) && self.author_at(w)
                        == p,
        )
    }

    /// The round that the rule of rounds gives the event at `e`.
    pub open(crate) spec fn round_rule_at(&self, e: int) -> int {
        if self.is_genesis_at(e) {
            0
        } else {
            let below = self.parent_round_at(e);
            if self.witnesses_seen_at(e, below).len() > self.threshold() {
                below + 1
            } else {
                below
            }
        }
    }

    // ----- the invariant -----

    /// The store and its links: digests are unique, parents stand before
    /// their children, and the positions kept beside an event agree with the
    /// digests that the event names.
    pub open(crate) spec fn wf_store(&self) -> bool {
        &&& forall|i: int, j: int|
            0 <= i < j < self.size() ==> #[trigger] self.hash_at(i) != #[trigger] self.hash_at(j)
        &&& forall|i: int|
            0 <= i < self.size() ==> (#[trigger] self.entries@[i].parents is None
                <==> self.event_at(i).is_genesis())
        &&& forall|i: int|
            0 <= i < self.size() && !(#[trigger] self.is_genesis_at(i)) ==> {
                &&& 0 <= self.sp(i) < i
                &&& 0 <= self.op(i) < i
                &&& self.event_at(i).self_parent() == self.hash_at(self.sp(i))
                &&& self.event_at(i).other_parent() == self.hash_at(self.op(i))
                &&& self.author_at(self.sp(i)) == self.author_at(i)
            }
        &&& forall|i: int, j: usize|
            0 <= i < self.size() ==> (#[trigger] self.entries@[i].children@.contains(j)
                <==> self.child_of(j as int, i))
    }

    /// Every stored event is named by the digest of its own fields.
    pub open(crate) spec fn wf_digests(&self) -> bool {
        forall|i: int|
            0 <= i < self.size() ==> #[trigger] self.hash_at(i) == event_hash(
                self.event_at(i).unsigned.fields,
            )
    }

    /// The child pointers kept with each event name exactly the events that
    /// have it as self parent, and as other parent.
    pub open(crate) spec fn wf_children(&self) -> bool {
        &&& forall|i: int, h: Seq<u8>|
            0 <= i < self.size() ==> (#[trigger] self.entries@[i].event.spec_children().self_child.list().contains(
                h,
            ) <==> exists|j: int|
                0 <= j < self.size() && !self.is_genesis_at(j) && self.sp(j) == i
                    && #[trigger] self.hash_at(j) == h)
        &&& forall|i: int, h: Seq<u8>|
            0 <= i < self.size() ==> (#[trigger] self.entries@[i].event.spec_children().other_children.contains(
                h,
            ) <==> exists|j: int|
                0 <= j < self.size() && !self.is_genesis_at(j) && self.op(j) == i
                    && #[trigger] self.hash_at(j) == h)
    }

    /// The peer index: every author has an entry, which names its genesis
    /// and its latest event; the latest event of a peer has no self child,
    /// no event has two, and no peer is marked as forking.
    pub open(crate) spec fn wf_peers(&self) -> bool {
        &&& self.peer_index@.dom().finite()
        &&& forall|i: int|
            0 <= i < self.size() ==> self.peer_index@.contains_key(#[trigger] self.author_at(i))
        &&& forall|i: int|
            0 <= i < self.size() && #[trigger] self.is_genesis_at(i) ==> self.peer_index@[self.author_at(
                i,
            )].genesis_at == i
        &&& forall|p: PeerId| #[trigger]
            self.peer_index@.contains_key(p) ==> {
                let entry = self.peer_index@[p];
                &&& entry.genesis_at < self.size()
                &&& entry.latest_at < self.size()
                &&& self.is_genesis_at(entry.genesis_at as int)
                &&& self.author_at(entry.genesis_at as int) == p
                &&& self.author_at(entry.latest_at as int) == p
                &&& entry.genesis@ == self.hash_at(entry.genesis_at as int)
                &&& entry.latest_event@ == self.hash_at(entry.latest_at as int)
                &&& !entry.forking
                &&& self.entries@[entry.latest_at as int].event.spec_children().self_child is NoChild
            }
        &&& forall|i: int|
            0 <= i < self.size() ==> !(#[trigger] self.entries@[i].event.spec_children().self_child is Forking)
    }

    /// Rounds and witnesses of the first `k` events: each stands in the list
    /// of its round and in no other, a genesis has round 0, a regular event
    /// the greater round of its parents or the next one, and the witnesses
    /// are the genesis events and the events of a later round than their self
    /// parent.
    pub open(crate) spec fn wf_rounds(&self, k: int) -> bool {
        &&& self.round_index@.len() >= 1
        &&& forall|i: int| 0 <= i < k ==> 0 <= #[trigger] self.round_at(i) < self.round_index@.len()
        &&& forall|r: int, i: usize|
            0 <= r < self.round_index@.len() ==> (#[trigger] self.round_index@[r]@.contains(i) <==> i
                < k && self.round_at(i as int) == r)
        &&& forall|r: int| 0 <= r < self.round_index@.len() ==> (#[trigger] self.round_index@[r])@.no_duplicates()
        &&& forall|i: int|
            0 <= i < k && #[trigger] self.is_genesis_at(i) ==> self.round_at(i) == 0
                && self.witness_at(i)
        &&& forall|i: int|
            0 <= i < k && !(#[trigger] self.is_genesis_at(i)) ==> {
                &&& self.parent_round_at(i) <= self.round_at(i) <= self.parent_round_at(i) + 1
                &&& self.witness_at(i) <==> self.round_at(i) > self.round_at(self.sp(i))
            }
    }

    /// What holds of the store, the child pointers and the peer index at
    /// all times, and of the rounds of the first `k` events.
    pub open(crate) spec fn wf_upto(&self, k: int) -> bool {
        &&& self.wf_digests()
        &&& self.wf_store()
        &&& self.wf_children()
        &&& self.wf_peers()
        &&& self.wf_rounds(k)
        &&& self.coin_frequency >= 1
    }

    /// The invariant of the graph. Every graph handed out by this crate
    /// satisfies it.
    pub open(crate) spec fn wf(&self) -> bool {
        self.wf_upto(self.size())
    }

    /// The state between the admission of an event and the assignment of
    /// its round: the last event has no round and no entry in the witness
    /// registry yet.
    pub open(crate) spec fn staged(&self) -> bool {
        &&& self.size() >= 1
        &&& self.wf_upto(self.size() - 1)
        &&& self.entries@[self.size() - 1].fame is None
    }

    // ----- the public model, by digest -----

    /// An event with digest `h` is in the store.
    pub open(crate) spec fn contains(&self, h: Seq<u8>) -> bool {
        exists|i: int| 0 <= i < self.size() && #[trigger] self.hash_at(i) == h
    }

    /// Position in insertion order of the event with digest `h`.
    pub open(crate) spec fn index_of(&self, h: Seq<u8>) -> int {
        choose|i: int| 0 <= i < self.size() && #[trigger] self.hash_at(i) == h
    }

    /// The stored event with digest `h`.
    pub open(crate) spec fn event_of(&self, h: Seq<u8>) -> SignedView {
        self.event_at(self.index_of(h))
    }

    /// The round assigned to the event with digest `h`.
    pub open(crate) spec fn round(&self, h: Seq<u8>) -> int {
        self.round_at(self.index_of(h))
    }

    /// The event with digest `h` is in the witness registry.
    pub open(crate) spec fn is_witness(&self, h: Seq<u8>) -> bool {
        self.witness_at(self.index_of(h))
    }

    /// The entry of the event with digest `h` in the witness registry, if it
    /// has one.
    pub open(crate) spec fn fame_of(&self, h: Seq<u8>) -> Option<WitnessFamousness> {
        self.entries@[self.index_of(h)].fame
    }

    /// The child pointers kept with the event with digest `h`.
    pub open(crate) spec fn children_of(&self, h: Seq<u8>) -> ChildrenView {
        self.entries@[self.index_of(h)].event.spec_children()
    }

    /// Authors of the witnesses of round `r`, other than `e` itself, that
    /// the event `e` strongly sees.
    pub open spec fn seen_witness_authors(&self, e: Seq<u8>, r: int) -> Set<PeerId> {
        Set::new(
            |p: PeerId|
                exists|w: Seq<u8>|
                    #![trigger self.strongly_sees(e, w)]
                    self.contains(w) && w != e && self.round(w) == r && self.is_witness(w)
                        && self.strongly_sees(e, w) && self.event_of(w).author() == p,
        )
    }

    /// The rule of rounds. A genesis has round 0. A regular event has the
    /// greater round `r` of its parents, or `r + 1` if it strongly sees
    /// witnesses of round `r` by more than `2n/3` of the `n` peers.
    pub open spec fn round_rule(&self, e: Seq<u8>) -> int {
        if self.event_of(e).is_genesis() {
            0
        } else {
            let of_self_parent = self.round(self.event_of(e).self_parent());
            let of_other_parent = self.round(self.event_of(e).other_parent());
            let below = if of_self_parent >= of_other_parent {
                of_self_parent
            } else {
                of_other_parent
            };
            if self.seen_witness_authors(e, below).len() > (2 * self.peers().len()) / 3 {
                below + 1
            } else {
                below
            }
        }
    }

    /// The rule of witnesses: a genesis, or an event of a later round than
    /// its self parent.
    pub open spec fn witness_rule(&self, e: Seq<u8>) -> bool {
        self.event_of(e).is_genesis() || self.round(e) > self.round(
            self.event_of(e).self_parent(),
        )
    }

    /// What a push of `payload` as `node_type` by `author` comes to: the
    /// fields of the event that is admitted, or the error. The checks are
    /// made in this order.
    pub open spec fn push_outcome(
        &self,
        payload: Seq<u8>,
        node_type: PushKind,
        author: PeerId,
    ) -> Result<FieldsView, PushErrorView> {
        match node_type {
            PushKind::Genesis => {
                let fields = FieldsView {
                    user_payload: payload,
                    kind: KindView::Genesis(Seq::empty()),
                    author,
                    timestamp: 0,
                };
                if self.contains(event_hash(fields)) {
                    Err(PushErrorView::NodeAlreadyExists(event_hash(fields)))
                } else if self.peers().contains(author) {
                    Err(PushErrorView::GenesisAlreadyExists)
                } else {
                    Ok(fields)
                }
            },
            PushKind::Regular(other_parent) => {
                if !self.peers().contains(author) {
                    Err(PushErrorView::PeerNotFound(author))
                } else {
                    let fields = FieldsView {
                        user_payload: payload,
                        kind: KindView::Regular {
                            self_parent: self.latest_of(author),
                            other_parent: other_parent@,
                        },
                        author,
                        timestamp: 0,
                    };
                    if self.contains(event_hash(fields)) {
                        Err(PushErrorView::NodeAlreadyExists(event_hash(fields)))
                    } else if !self.contains(other_parent@) {
                        Err(PushErrorView::NoParent(other_parent@))
                    } else {
                        Ok(fields)
                    }
                }
            },
        }
    }

    /// The graph is `before` with one more event, which has the given
    /// fields: what was stored stays as it was, the new event is the latest
    /// of its author and a child of its parents, and it has the round and
    /// the witness status that the rules give it.
    pub open spec fn admitted(&self, before: &Graph, fields: FieldsView) -> bool {
        let h = event_hash(fields);
        &&& forall|g: Seq<u8>| #[trigger] self.contains(g) <==> before.contains(g) || g == h
        &&& forall|g: Seq<u8>| #[trigger]
            before.contains(g) ==> {
                &&& self.event_of(g) == before.event_of(g)
                &&& self.round(g) == before.round(g)
                &&& self.fame_of(g) == before.fame_of(g)
                &&& self.children_of(g) == (ChildrenView {
                    self_child: if fields.kind is Regular && g == fields.kind->self_parent {
                        SelfChildView::HonestChild(h)
                    } else {
                        before.children_of(g).self_child
                    },
                    other_children: if fields.kind is Regular && g == fields.kind->other_parent {
                        before.children_of(g).other_children.push(h)
                    } else {
                        before.children_of(g).other_children
                    },
                })
            }
        &&& self.event_of(h) == (SignedView {
            unsigned: UnsignedView { fields, hash: h },
            signature: h,
        })
        &&& self.children_of(h) == (ChildrenView {
            self_child: SelfChildView::NoChild,
            other_children: Seq::empty(),
        })
        &&& self.peers() == before.peers().insert(fields.author)
        &&& forall|p: PeerId|
            p != fields.author && #[trigger] before.peers().contains(p) ==> self.genesis_of(p)
                == before.genesis_of(p) && self.latest_of(p) == before.latest_of(p)
        &&& self.latest_of(fields.author) == h
        &&& self.genesis_of(fields.author) == (if fields.kind is Genesis {
            h
        } else {
            before.genesis_of(fields.author)
        })
        &&& self.round(h) == self.round_rule(h)
        &&& self.fame_of(h) == (if self.witness_rule(h) {
            Some(WitnessFamousness::Undecided)
        } else {
            None
        })
        &&& self.rounds() == (if self.round(h) == before.rounds() {
            before.rounds() + 1
        } else {
            before.rounds()
        })
        &&& self.round(h) <= before.rounds()
        &&& self.coin() == before.coin()
        &&& self.owner() == before.owner()
    }

    /// The event `potential_ancestor` is `target` itself or can be reached
    /// from it by parent links; both are in the store.
    pub open(crate) spec fn has_ancestor(&self, target: Seq<u8>, potential_ancestor: Seq<u8>) -> bool {
        &&& self.contains(target)
        &&& self.contains(potential_ancestor)
        &&& self.anc(self.index_of(target), self.index_of(potential_ancestor))
    }

    /// More than two thirds of the peers wrote an ancestor of `observer`
    /// that has `target` as an ancestor: the threshold is `2n/3` rounded
    /// down, and the count must be strictly greater.
    pub open spec fn strongly_sees(&self, observer: Seq<u8>, target: Seq<u8>) -> bool {
        self.seeing_peers(observer, target).len() > (2 * self.peers().len()) / 3
    }

    /// The peers that wrote an ancestor of `observer` which has `target` as
    /// an ancestor.
    pub open(crate) spec fn seeing_peers(&self, observer: Seq<u8>, target: Seq<u8>) -> Set<PeerId> {
        Set::new(
            |p: PeerId|
                exists|a: Seq<u8>|
                    #![trigger self.has_ancestor(observer, a)]
                    self.has_ancestor(observer, a) && self.has_ancestor(a, target) && self.event_of(
                        a,
                    ).author() == p,
        )
    }

    /// The peers that have a genesis in the store.
    pub open(crate) spec fn peers(&self) -> Set<PeerId> {
        self.peer_index@.dom()
    }

    /// Digest of the genesis of a peer of the store.
    pub open(crate) spec fn genesis_of(&self, peer: PeerId) -> Seq<u8> {
        self.peer_index@[peer].genesis@
    }

    /// Digest of the latest event of a peer of the store.
    pub open(crate) spec fn latest_of(&self, peer: PeerId) -> Seq<u8> {
        self.peer_index@[peer].latest_event@
    }

    /// The peer was seen to give two events the same self parent.
    pub open(crate) spec fn forking(&self, peer: PeerId) -> bool {
        self.peer_index@[peer].forking
    }

    /// Number of rounds that hold events.
    pub open(crate) spec fn rounds(&self) -> int {
        self.round_index@.len() as int
    }

    /// The coin frequency the graph was made with.
    pub open(crate) spec fn coin(&self) -> int {
        self.coin_frequency as int
    }

    /// The peer that owns the graph.
    pub open(crate) spec fn owner(&self) -> PeerId {
        self.self_id
    }
}

impl Graph {
    /// The position of a stored digest is in range and holds that digest,
    /// and no other position does.
    pub(crate) proof fn lemma_index_of(&self, h: Seq<u8>)
        requires
            self.wf_store(),
            self.contains(h),
        ensures
            0 <= self.index_of(h) < self.size(),
            self.hash_at(self.index_of(h)) == h,
            forall|i: int| 0 <= i < self.size() && self.hash_at(i) == h ==> i == self.index_of(h),
    {
    }

    /// A position of the store holds a stored digest, and is its position.
    pub(crate) proof fn lemma_position(&self, i: int)
        requires
            self.wf_store(),
            0 <= i < self.size(),
        ensures
            self.contains(self.hash_at(i)),
            self.index_of(self.hash_at(i)) == i,
    {
        self.lemma_index_of(self.hash_at(i));
    }

    /// Finds the position of the event with digest `h`.
    pub(crate) fn position(&self, h: &hash::Hash) -> (found: Option<usize>)
        requires
            self.wf_store(),
        ensures
            match found {
                Some(i) => self.contains(h@) && i == self.index_of(h@) && i < self.size(),
                None => !self.contains(h@),
            },
    {
        let mut i: usize = 0;
        while i < self.entries.len()
            invariant
                i <= self.entries.len(),
                self.wf_store(),
                forall|k: int| 0 <= k < i ==> self.hash_at(k) != h@,
            decreases self.entries.len() - i,
        {
            if *self.entries[i].event.hash() == *h {
                proof {
                    self.lemma_position(i as int);
                }
                return Some(i);
            }
            i = i + 1;
        }
        None
    }
}

} // verus!
