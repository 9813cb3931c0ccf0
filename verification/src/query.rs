//! Queries on the store, the peer index and the round index.

use crate::event::{EventWrapper, PeerId, SignedEvent};
use crate::graph::{Graph, PeerIndexEntry, RoundNum, WitnessFamousness};
use crate::hash;
use vstd::prelude::*;

verus! {

broadcast use vstd::std_specs::hash::group_hash_axioms;

impl Graph {
    /// The digests of the events at the positions `positions`.
    pub open(crate) spec fn hashes_at(&self, positions: Seq<usize>) -> Seq<Seq<u8>> {
        Seq::new(positions.len(), |k: int| self.hash_at(positions[k] as int))
    }

    /// Digests of the events of round `r`, in the order of their admission.
    pub open(crate) spec fn round_members(&self, r: int) -> Seq<Seq<u8>> {
        self.hashes_at(self.round_index@[r]@)
    }

    /// Digests of the parents of the event `h`, self parent first.
    pub open spec fn parents_of(&self, h: Seq<u8>) -> Seq<Seq<u8>> {
        crate::event::parents_of(self.event_of(h).kind())
    }

    /// Copies out the digests of the events at `positions`.
    pub(crate) fn collect_hashes(&self, positions: &Vec<usize>) -> (digests: Vec<hash::Hash>)
        requires
            forall|k: int| 0 <= k < positions@.len() ==> #[trigger] positions@[k] < self.size(),
        ensures
            digests.deep_view() == self.hashes_at(positions@),
    {
        let mut digests: Vec<hash::Hash> = Vec::new();
        let mut k: usize = 0;
        while k < positions.len()
            invariant
                k <= positions@.len(),
                forall|j: int| 0 <= j < positions@.len() ==> #[trigger] positions@[j] < self.size(),
                digests@.len() == k,
                forall|j: int| 0 <= j < k ==> digests@[j]@ == self.hash_at(positions@[j] as int),
            decreases positions.len() - k,
        {
            digests.push(*self.entries[positions[k]].event.hash());
            k = k + 1;
        }
        proof {
            assert(digests.deep_view() =~= self.hashes_at(positions@));
        }
        digests
    }

    /// Number of peers that have a genesis in the graph.
    pub fn members_count(&self) -> (count: usize)
        requires
            self.wf(),
        ensures
            count == self.peers().len(),
    {
        self.peer_index.len()
    }

    /// The peer that owns the graph.
    pub fn self_id(&self) -> (peer: PeerId)
        ensures
            peer == self.owner(),
    {
        self.self_id
    }

    /// Every `coin_frequency`-th round of an election is a coin round.
    pub fn coin_frequency(&self) -> (frequency: usize)
        ensures
            frequency == self.coin(),
    {
        self.coin_frequency
    }

    /// Number of rounds that hold events.
    pub fn rounds_count(&self) -> (count: usize)
        ensures
            count == self.rounds(),
    {
        self.round_index.len()
    }

    /// Digest of the latest event of `peer`, if the graph knows the peer.
    pub fn peer_latest_event(&self, peer: &PeerId) -> (latest: Option<&hash::Hash>)
        requires
            self.wf(),
        ensures
            match latest {
                Some(digest) => self.peers().contains(*peer) && digest@ == self.latest_of(*peer),
                None => !self.peers().contains(*peer),
            },
    {
        match self.peer_index.get(peer) {
            Some(entry) => Some(&entry.latest_event),
            None => None,
        }
    }

    /// Digest of the genesis of `peer`, if the graph knows the peer.
    pub fn peer_genesis(&self, peer: &PeerId) -> (genesis: Option<&hash::Hash>)
        requires
            self.wf(),
        ensures
            match genesis {
                Some(digest) => self.peers().contains(*peer) && digest@ == self.genesis_of(*peer),
                None => !self.peers().contains(*peer),
            },
    {
        match self.peer_index.get(peer) {
            Some(entry) => Some(&entry.genesis),
            None => None,
        }
    }

    /// What the peer index holds for `peer`, if the graph knows the peer.
    pub fn peer_entry(&self, peer: &PeerId) -> (entry: Option<&PeerIndexEntry>)
        requires
            self.wf(),
        ensures
            match entry {
                Some(entry) => {
                    &&& self.peers().contains(*peer)
                    &&& entry.spec_genesis() == self.genesis_of(*peer)
                    &&& entry.spec_latest_event() == self.latest_of(*peer)
                    &&& entry.spec_forking() == self.forking(*peer)
                },
                None => !self.peers().contains(*peer),
            },
    {
        self.peer_index.get(peer)
    }

    /// Whether `peer` was seen to fork. It never was: see `push_node`.
    pub fn peer_is_forking(&self, peer: &PeerId) -> (forking: Option<bool>)
        requires
            self.wf(),
        ensures
            match forking {
                Some(flag) => self.peers().contains(*peer) && flag == self.forking(*peer) && !flag,
                None => !self.peers().contains(*peer),
            },
    {
        match self.peer_index.get(peer) {
            Some(entry) => Some(entry.forking),
            None => None,
        }
    }

    /// The payload of the event with digest `id`, if the store holds it.
    pub fn event(&self, id: &hash::Hash) -> (payload: Option<&Vec<u8>>)
        requires
            self.wf(),
        ensures
            match payload {
                Some(bytes) => self.contains(id@) && bytes@ == self.event_of(
                    id@,
                ).unsigned.fields.user_payload,
                None => !self.contains(id@),
            },
    {
        match self.position(id) {
            Some(at) => {
                proof {
                    self.lemma_index_of(id@);
                }
                Some(self.entries[at].event.payload())
            },
            None => None,
        }
    }

    /// The event with digest `id` and its child pointers, if the store
    /// holds it.
    pub fn wrapper(&self, id: &hash::Hash) -> (found: Option<&EventWrapper>)
        requires
            self.wf(),
        ensures
            match found {
                Some(wrapper) => self.contains(id@) && wrapper.event() == self.event_of(id@)
                    && wrapper.spec_children() == self.children_of(id@),
                None => !self.contains(id@),
            },
    {
        match self.position(id) {
            Some(at) => {
                proof {
                    self.lemma_index_of(id@);
                }
                Some(&self.entries[at].event)
            },
            None => None,
        }
    }

    /// The signed event with digest `id`, if the store holds it.
    pub fn signed_event(&self, id: &hash::Hash) -> (found: Option<&SignedEvent>)
        requires
            self.wf(),
        ensures
            match found {
                Some(event) => self.contains(id@) && event@ == self.event_of(id@),
                None => !self.contains(id@),
            },
    {
        match self.position(id) {
            Some(at) => {
                proof {
                    self.lemma_index_of(id@);
                }
                Some(self.entries[at].event.inner())
            },
            None => None,
        }
    }

    /// What the witness registry holds for the event with digest `id`:
    /// `None` if the event is no witness or is not in the store.
    pub fn recorded_fame(&self, id: &hash::Hash) -> (fame: Option<WitnessFamousness>)
        requires
            self.wf(),
        ensures
            fame == (if self.contains(id@) {
                self.fame_of(id@)
            } else {
                None
            }),
    {
        match self.position(id) {
            Some(at) => {
                proof {
                    self.lemma_index_of(id@);
                }
                self.entries[at].fame
            },
            None => None,
        }
    }

    /// Digests of the events of round `round`, in the order of their
    /// admission: the stored events whose round is `round`, each once.
    /// `None` if no event has that round or a later one.
    pub fn round_events(&self, round: RoundNum) -> (members: Option<Vec<hash::Hash>>)
        requires
            self.wf(),
        ensures
            members is Some <==> round < self.rounds(),
            members matches Some(digests) ==> {
                &&& digests.deep_view() == self.round_members(round as int)
                &&& digests.deep_view().no_duplicates()
                &&& forall|h: Seq<u8>|
                    digests.deep_view().contains(h) <==> self.contains(h) && self.round(h) == round
            },
    {
        if round >= self.round_index.len() {
            return None;
        }
        let positions = &self.round_index[round];
        proof {
            assert forall|k: int| 0 <= k < positions@.len() implies #[trigger] positions@[k]
                < self.size() by {
                assert(self.round_index@[round as int]@.contains(positions@[k]));
            }
        }
        let digests = self.collect_hashes(positions);
        proof {
            self.lemma_round_members(round as int);
        }
        Some(digests)
    }

    /// The list of a round holds the digests of the events of that round,
    /// each once.
    pub(crate) proof fn lemma_round_members(&self, r: int)
        requires
            self.wf(),
            0 <= r < self.rounds(),
        ensures
            self.round_members(r).no_duplicates(),
            forall|h: Seq<u8>|
                self.round_members(r).contains(h) <==> self.contains(h) && self.round(h) == r,
    {
        let positions = self.round_index@[r]@;
        let members = self.round_members(r);
        assert forall|k: int| 0 <= k < positions.len() implies #[trigger] positions[k] < self.size()
            && self.round_at(positions[k] as int) == r by {
            assert(self.round_index@[r]@.contains(positions[k]));
        }
        assert forall|i: int, j: int| 0 <= i < j < members.len() implies members[i] != members[j] by {
            assert(positions[i] != positions[j]);
        }
        assert forall|h: Seq<u8>| members.contains(h) <==> self.contains(h) && self.round(h)
            == r by {
            if members.contains(h) {
                let k = choose|k: int| 0 <= k < members.len() && members[k] == h;
                self.lemma_position(positions[k] as int);
            }
            if self.contains(h) && self.round(h) == r {
                self.lemma_index_of(h);
                let i = self.index_of(h);
                assert(self.entries@.len() == self.entries.len());
                assert(self.round_index@[r]@.contains(i as usize));
                let k = choose|k: int| 0 <= k < positions.len() && positions[k] == i as usize;
                assert(members[k] == h);
            }
        }
    }

    /// Whether the store holds an event with digest `id`.
    pub fn contains_event(&self, id: &hash::Hash) -> (found: bool)
        requires
            self.wf(),
        ensures
            found == self.contains(id@),
    {
        self.position(id).is_some()
    }

    /// Number of events in the store.
    pub fn events_count(&self) -> (count: usize)
        ensures
            count == self.size(),
    {
        self.entries.len()
    }
}

} // verus!
