//! Rounds and witnesses: the rule that assigns a round to a new event, and
//! the queries on what was assigned.

use crate::event::PeerId;
use crate::graph::{Graph, RoundNum};
use crate::hash;
use std::collections::HashSet;
use vstd::prelude::*;

verus! {

broadcast use vstd::std_specs::hash::group_hash_axioms;

impl Graph {
    /// The round of the event that was just appended to the store: 0 for a
    /// genesis; else the greater round `r` of its parents, or `r + 1` if the
    /// event strongly sees witnesses of round `r` by more than `2n/3` peers.
    pub(crate) fn determine_round(&self, e: usize) -> (round: RoundNum)
        requires
            self.wf_store(),
            self.peer_index@.dom().finite(),
            e + 1 == self.size(),
            self.wf_rounds(e as int),
        ensures
            round == self.round_rule_at(e as int),
            round <= self.round_index@.len(),
            self.is_genesis_at(e as int) ==> round == 0,
            !self.is_genesis_at(e as int) ==> self.parent_round_at(e as int) <= round
                <= self.parent_round_at(e as int) + 1,
    {
        match self.entries[e].parents {
            None => 0,
            Some((self_parent, other_parent)) => {
                proof {
                    assert(!self.is_genesis_at(e as int));
                    assert(self_parent == self.sp(e as int) && other_parent == self.op(e as int));
                    assert(0 <= self.round_at(self_parent as int) < self.round_index@.len());
                    assert(0 <= self.round_at(other_parent as int) < self.round_index@.len());
                }
                let r = if self.entries[self_parent].round >= self.entries[other_parent].round {
                    self.entries[self_parent].round
                } else {
                    self.entries[other_parent].round
                };
                assert(r == self.parent_round_at(e as int));
                // Authors of the witnesses of round `r` that the event strongly sees.
                let mut witnesses_strongly_seen: HashSet<PeerId> = HashSet::new();
                let round = &self.round_index[r];
                let mut k: usize = 0;
                while k < round.len()
                    invariant
                        k <= round.len(),
                        self.wf_store(),
                        self.peer_index@.dom().finite(),
                        e + 1 == self.size(),
                        self.wf_rounds(e as int),
                        0 <= r < self.round_index@.len(),
                        round == self.round_index@[r as int],
                        forall|p: PeerId|
                            witnesses_strongly_seen@.contains(p) <==> exists|j: int|
                                0 <= j < k && (#[trigger] round@[j]) != e && self.witness_at(
                                    round@[j] as int,
                                ) && self.strongly_sees_at(e as int, round@[j] as int)
                                    && self.author_at(round@[j] as int) == p,
                    decreases round.len() - k,
                {
                    let w = round[k];
                    let ghost seen = witnesses_strongly_seen@;
                    proof {
                        assert(self.round_index@[r as int]@.contains(w));
                    }
                    let counts = w != e && self.entries[w].fame.is_some() && self.strongly_see_at(
                        e,
                        w,
                    );
                    if counts {
                        let author = *self.entries[w].event.author();
                        witnesses_strongly_seen.insert(author);
                    }
                    proof {
                        assert forall|p: PeerId|
                            witnesses_strongly_seen@.contains(p) <==> exists|j: int|
                                0 <= j < k + 1 && (#[trigger] round@[j]) != e && self.witness_at(
                                    round@[j] as int,
                                ) && self.strongly_sees_at(e as int, round@[j] as int)
                                    && self.author_at(round@[j] as int) == p by {
                            if seen.contains(p) {
                                let j = choose|j: int|
                                    0 <= j < k && (#[trigger] round@[j]) != e && self.witness_at(
                                        round@[j] as int,
                                    ) && self.strongly_sees_at(e as int, round@[j] as int)
                                        && self.author_at(round@[j] as int) == p;
                                assert(round@[j] != e);
                            }
                            if counts && p == self.author_at(w as int) {
                                assert(round@[k as int] != e);
                            }
                        }
                    }
                    k = k + 1;
                }
                proof {
                    let seen = self.witnesses_seen_at(e as int, r as int);
                    assert forall|p: PeerId|
                        witnesses_strongly_seen@.contains(p) <==> seen.contains(p) by {
                        if witnesses_strongly_seen@.contains(p) {
                            let j = choose|j: int|
                                0 <= j < k && (#[trigger] round@[j]) != e && self.witness_at(
                                    round@[j] as int,
                                ) && self.strongly_sees_at(e as int, round@[j] as int)
                                    && self.author_at(round@[j] as int) == p;
                            assert(self.round_index@[r as int]@.contains(round@[j]));
                            assert(self.round_at(round@[j] as int) == r);
                        }
                        if seen.contains(p) {
                            let w = choose|w: int|
                                0 <= w < self.size() && w != e && #[trigger] self.round_at(w) == r
                                    && self.witness_at(w) && self.strongly_sees_at(e as int, w)
                                    && self.author_at(w) == p;
                            assert(self.round_index@[r as int]@.contains(w as usize));
                            let j = choose|j: int| 0 <= j < round@.len() && round@[j] == w as usize;
                            assert(round@[j] != e);
                        }
                    }
                    assert(witnesses_strongly_seen@ =~= seen);
                }
                // n is the number of members of the hashgraph
                let n = self.peer_index.len();
                assert(r < self.round_index.len());
                if witnesses_strongly_seen.len() > crate::ancestry::supermajority_threshold(n) {
                    r + 1
                } else {
                    r
                }
            },
        }
    }

    /// The round of a stored event.
    pub fn round_of(&self, event_hash: &hash::Hash) -> (round: RoundNum)
        requires
            self.wf(),
            self.contains(event_hash@),
        ensures
            round == self.round(event_hash@),
            round < self.rounds(),
    {
        let at = self.position(event_hash).unwrap();
        proof {
            self.lemma_index_of(event_hash@);
            assert(0 <= self.round_at(at as int) < self.round_index@.len());
        }
        self.entries[at].round
    }

    /// Whether a stored event is a witness: a genesis, or an event of a later
    /// round than its self parent.
    pub fn determine_witness(&self, event_hash: &hash::Hash) -> (witness: bool)
        requires
            self.wf(),
            self.contains(event_hash@),
        ensures
            witness == self.is_witness(event_hash@),
            witness == (self.event_of(event_hash@).is_genesis() || self.round(event_hash@)
                > self.round(self.event_of(event_hash@).self_parent())),
    {
        let at = self.position(event_hash).unwrap();
        proof {
            self.lemma_index_of(event_hash@);
            if !self.is_genesis_at(at as int) {
                self.lemma_position(self.sp(at as int));
            }
        }
        match self.entries[at].parents {
            None => true,
            Some((self_parent, _)) => self.entries[at].round > self.entries[self_parent].round,
        }
    }
}

} // verus!
