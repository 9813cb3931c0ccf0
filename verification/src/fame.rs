//! The fame of witnesses: virtual voting by the witnesses of later rounds,
//! with a coin round every `coin_frequency` rounds.

use crate::ancestry::supermajority_threshold;
use crate::graph::{Graph, NotWitness, WitnessFamousness};
use crate::hash;
use vstd::prelude::*;

verus! {

broadcast use vstd::std_specs::hash::group_hash_axioms;

/// The middle bit of a digest: bit 0 of byte 32, which is the bit at half
/// the bit length of the digest.
pub open spec fn middle_bit(digest: Seq<u8>) -> bool {
    digest[32] & 1 == 1
}

impl Graph {
    /// Number of witnesses among the first `k` of `voters` that the event at
    /// `y` strongly sees and whose vote in `votes` is `vote`.
    pub open(crate) spec fn tally(
        &self,
        y: int,
        voters: Seq<usize>,
        votes: Seq<bool>,
        vote: bool,
        k: int,
    ) -> nat
        decreases k,
    {
        if k <= 0 {
            0
        } else {
            self.tally(y, voters, votes, vote, k - 1) + if self.witness_at(voters[k - 1] as int)
                && self.strongly_sees_at(y, voters[k - 1] as int) && votes[k - 1] == vote {
                1nat
            } else {
                0nat
            }
        }
    }

    /// Whether the round at distance `d` from the round of the candidate is
    /// a coin round.
    pub open(crate) spec fn coin_round(&self, d: int) -> bool {
        d % (self.coin_frequency as int) == 0
    }

    /// The greater of the two counts of votes that the event at `y` collects
    /// from `voters`.
    pub open(crate) spec fn votes_collected(&self, y: int, voters: Seq<usize>, votes: Seq<bool>) -> int {
        let yes = self.tally(y, voters, votes, true, voters.len() as int);
        let no = self.tally(y, voters, votes, false, voters.len() as int);
        if yes >= no {
            yes as int
        } else {
            no as int
        }
    }

    /// The vote of the majority of what the event at `y` collects from
    /// `voters`; a tie counts as yes.
    pub open(crate) spec fn majority(&self, y: int, voters: Seq<usize>, votes: Seq<bool>) -> bool {
        self.tally(y, voters, votes, true, voters.len() as int) >= self.tally(
            y,
            voters,
            votes,
            false,
            voters.len() as int,
        )
    }

    /// The vote on the candidate at `x` of the witness at `y`, which stands
    /// `d >= 2` rounds after it, given the votes `votes` of the events
    /// `voters` of the round before: the majority, but in a coin round
    /// without a supermajority the middle bit of the candidate's digest.
    pub open(crate) spec fn vote_of(
        &self,
        x: int,
        d: int,
        y: int,
        voters: Seq<usize>,
        votes: Seq<bool>,
    ) -> bool {
        if !self.coin_round(d) || self.votes_collected(y, voters, votes) > self.threshold() {
            self.majority(y, voters, votes)
        } else {
            middle_bit(self.hash_at(x))
        }
    }

    /// The witness at `y` decides the fame of the candidate: it stands in a
    /// round that is no coin round and collects a supermajority.
    pub open(crate) spec fn decides(&self, d: int, y: int, voters: Seq<usize>, votes: Seq<bool>) -> bool {
        self.witness_at(y) && !self.coin_round(d) && self.votes_collected(y, voters, votes)
            > self.threshold()
    }

    /// The events of the round at distance `d` from the round of the
    /// candidate at `x`, in the order in which they were admitted.
    pub open(crate) spec fn voters_at(&self, x: int, d: int) -> Seq<usize> {
        self.round_index@[self.round_at(x) + d]@
    }

    /// The votes on the candidate at `x` of the events of the round at
    /// distance `d >= 1`, one for each event of `voters_at(x, d)`: in the
    /// first round whether the event sees the candidate, later the vote of
    /// each witness (`false` stands for an event that is no witness and has
    /// no vote).
    pub open(crate) spec fn votes_at(&self, x: int, d: int) -> Seq<bool>
        decreases d,
    {
        if d <= 1 {
            Seq::new(self.voters_at(x, 1).len(), |k: int| self.anc(self.voters_at(x, 1)[k] as int, x))
        } else {
            let votes = self.votes_at(x, d - 1);
            let voters = self.voters_at(x, d - 1);
            Seq::new(
                self.voters_at(x, d).len(),
                |k: int|
                    self.witness_at(self.voters_at(x, d)[k] as int) && self.vote_of(
                        x,
                        d,
                        self.voters_at(x, d)[k] as int,
                        voters,
                        votes,
                    ),
            )
        }
    }

    /// The decision of the first event of the round at distance `d`, from
    /// position `k` of its list on, that decides.
    pub open(crate) spec fn first_decision(&self, x: int, d: int, k: int) -> Option<bool>
        decreases self.voters_at(x, d).len() - k,
    {
        if k < 0 || k >= self.voters_at(x, d).len() {
            None
        } else if self.decides(
            d,
            self.voters_at(x, d)[k] as int,
            self.voters_at(x, d - 1),
            self.votes_at(x, d - 1),
        ) {
            Some(
                self.majority(
                    self.voters_at(x, d)[k] as int,
                    self.voters_at(x, d - 1),
                    self.votes_at(x, d - 1),
                ),
            )
        } else {
            self.first_decision(x, d, k + 1)
        }
    }

    /// The fame of the candidate at `x` as the rounds at distance `d` and
    /// more decide it: the first decision of the first round that holds one,
    /// and `Undecided` if no round does.
    pub open(crate) spec fn fame_from(&self, x: int, d: int) -> WitnessFamousness
        decreases self.rounds() - (self.round_at(x) + d),
    {
        if d < 2 || self.round_at(x) + d >= self.round_index@.len() {
            WitnessFamousness::Undecided
        } else {
            match self.first_decision(x, d, 0) {
                Some(true) => WitnessFamousness::Yes,
                Some(false) => WitnessFamousness::No,
                None => self.fame_from(x, d + 1),
            }
        }
    }

    /// The fame that virtual voting gives the witness with digest `h` in
    /// the graph as it stands: the witnesses of the next round vote whether
    /// they see it; from the second round on each witness collects the
    /// votes of the witnesses of the round before that it strongly sees,
    /// and decides, in a round that is no coin round, with the majority if
    /// more than `2n/3` of the votes agree.
    pub open(crate) spec fn fame_rule(&self, h: Seq<u8>) -> WitnessFamousness {
        self.fame_from(self.index_of(h), 2)
    }

    /// The fame of the witness with digest `h`: what the registry holds if
    /// it holds a decision, which is final, and else what the voting gives.
    pub open spec fn fame(&self, h: Seq<u8>) -> WitnessFamousness {
        match self.fame_of(h) {
            Some(WitnessFamousness::Yes) => WitnessFamousness::Yes,
            Some(WitnessFamousness::No) => WitnessFamousness::No,
            _ => self.fame_rule(h),
        }
    }

    /// Counts the votes for and against that the event at `y` collects from
    /// the witnesses among `voters` that it strongly sees.
    pub(crate) fn count_votes(&self, y: usize, voters: &Vec<usize>, votes: &Vec<bool>) -> (counts: (
        usize,
        usize,
    ))
        requires
            self.wf_store(),
            self.peer_index@.dom().finite(),
            y < self.size(),
            voters@.len() == votes@.len(),
            forall|k: int| 0 <= k < voters@.len() ==> #[trigger] voters@[k] < self.size(),
        ensures
            counts.0 == self.tally(y as int, voters@, votes@, true, voters@.len() as int),
            counts.1 == self.tally(y as int, voters@, votes@, false, voters@.len() as int),
    {
        let mut votes_for: usize = 0;
        let mut votes_against: usize = 0;
        let mut k: usize = 0;
        while k < voters.len()
            invariant
                k <= voters@.len(),
                self.wf_store(),
                self.peer_index@.dom().finite(),
                y < self.size(),
                voters@.len() == votes@.len(),
                forall|j: int| 0 <= j < voters@.len() ==> #[trigger] voters@[j] < self.size(),
                votes_for == self.tally(y as int, voters@, votes@, true, k as int),
                votes_against == self.tally(y as int, voters@, votes@, false, k as int),
                votes_for <= k,
                votes_against <= k,
            decreases voters.len() - k,
        {
            let w = voters[k];
            if self.entries[w].fame.is_some() && self.strongly_see_at(y, w) {
                if votes[k] {
                    votes_for = votes_for + 1;
                } else {
                    votes_against = votes_against + 1;
                }
            }
            k = k + 1;
        }
        (votes_for, votes_against)
    }

    /// The votes of the events of the first round after that of the
    /// candidate at `x`.
    fn first_votes(&self, x: usize) -> (votes: Vec<bool>)
        requires
            self.wf(),
            x < self.size(),
            self.round_at(x as int) + 1 < self.round_index@.len(),
        ensures
            votes@ == self.votes_at(x as int, 1),
    {
        let rounds = self.round_index.len();
        let voters = &self.round_index[self.entries[x].round + 1];
        let mut votes: Vec<bool> = Vec::new();
        let mut k: usize = 0;
        while k < voters.len()
            invariant
                k <= voters@.len(),
                self.wf(),
                x < self.size(),
                voters@ == self.voters_at(x as int, 1),
                self.round_at(x as int) + 1 < self.round_index@.len(),
                votes@.len() == k,
                forall|j: int| 0 <= j < k ==> votes@[j] == self.anc(voters@[j] as int, x as int),
            decreases voters.len() - k,
        {
            let y = voters[k];
            proof {
                assert(self.round_index@[self.round_at(x as int) + 1]@.contains(y));
            }
            let sees = self.ancestor_at(y, x);
            votes.push(sees);
            k = k + 1;
        }
        proof {
            assert(votes@ =~= self.votes_at(x as int, 1));
        }
        votes
    }

    /// Runs the voting on the candidate at `x`.
    pub(crate) fn vote_on(&self, x: usize) -> (fame: WitnessFamousness)
        requires
            self.wf(),
            x < self.size(),
        ensures
            fame == self.fame_from(x as int, 2),
    {
        let r = self.entries[x].round;
        proof {
            assert(0 <= self.round_at(x as int) < self.round_index@.len());
        }
        let rounds = self.round_index.len();
        // first round of the election
        if r + 1 >= rounds {
            return WitnessFamousness::Undecided;
        }
        let mut prev_round_votes = self.first_votes(x);
        let n = self.peer_index.len();
        let threshold = supermajority_threshold(n);
        let mut voter_round: usize = r + 2;
        while voter_round < rounds
            invariant
                self.wf(),
                x < self.size(),
                r == self.round_at(x as int),
                rounds == self.round_index@.len(),
                r + 2 <= voter_round <= rounds,
                threshold == self.threshold(),
                prev_round_votes@ == self.votes_at(x as int, voter_round - r - 1),
                self.fame_from(x as int, 2) == self.fame_from(x as int, voter_round - r),
            decreases rounds - voter_round,
        {
            let d = voter_round - r;
            let this_round_index = &self.round_index[voter_round];
            let voters = &self.round_index[voter_round - 1];
            let mut this_round_votes: Vec<bool> = Vec::new();
            proof {
                assert forall|k: int| 0 <= k < voters@.len() implies #[trigger] voters@[k]
                    < self.size() by {
                    assert(self.round_index@[voter_round - 1]@.contains(voters@[k]));
                }
            }
            let mut k: usize = 0;
            while k < this_round_index.len()
                invariant
                    k <= this_round_index@.len(),
                    self.wf(),
                    x < self.size(),
                    r == self.round_at(x as int),
                    rounds == self.round_index@.len(),
                    r + 2 <= voter_round < rounds,
                    d == voter_round - r,
                    threshold == self.threshold(),
                    this_round_index@ == self.voters_at(x as int, d as int),
                    voters@ == self.voters_at(x as int, d - 1),
                    prev_round_votes@ == self.votes_at(x as int, d - 1),
                    forall|j: int| 0 <= j < voters@.len() ==> #[trigger] voters@[j] < self.size(),
                    voters@.len() == prev_round_votes@.len(),
                    this_round_votes@.len() == k,
                    self.fame_from(x as int, 2) == self.fame_from(x as int, d as int),
                    forall|j: int|
                        0 <= j < k ==> this_round_votes@[j] == self.votes_at(x as int, d as int)[j],
                    self.first_decision(x as int, d as int, 0) == self.first_decision(
                        x as int,
                        d as int,
                        k as int,
                    ),
                decreases this_round_index.len() - k,
            {
                let y = this_round_index[k];
                proof {
                    assert(self.round_index@[voter_round as int]@.contains(y));
                }
                if self.entries[y].fame.is_some() {
                    // count the votes of the witnesses of the round before
                    // that y strongly sees
                    let (votes_for, votes_against) = self.count_votes(y, voters, &prev_round_votes);
                    // majority vote (true for a tie)
                    let v = votes_for >= votes_against;
                    // number of votes that agree with the majority
                    let t = if votes_for >= votes_against {
                        votes_for
                    } else {
                        votes_against
                    };
                    if d % self.coin_frequency > 0 {
                        // Normal round
                        if t > threshold {
                            // a supermajority decides
                            proof {
                                assert(self.decides(
                                    d as int,
                                    y as int,
                                    self.voters_at(x as int, d - 1),
                                    self.votes_at(x as int, d - 1),
                                ));
                                assert(self.first_decision(x as int, d as int, k as int) == Some(v));
                                assert(self.fame_from(x as int, d as int) == if v {
                                    WitnessFamousness::Yes
                                } else {
                                    WitnessFamousness::No
                                });
                            }
                            return if v {
                                WitnessFamousness::Yes
                            } else {
                                WitnessFamousness::No
                            };
                        } else {
                            this_round_votes.push(v);
                        }
                    } else {
                        // Coin round
                        if t > threshold {
                            // a supermajority votes
                            this_round_votes.push(v);
                        } else {
                            let middle_byte = self.entries[x].event.hash().as_ref()[32];
                            let coin = (middle_byte & 1) != 0;
                            proof {
                                let b = middle_byte;
                                assert((b & 1 != 0) == (b & 1 == 1)) by (bit_vector);
                            }
                            this_round_votes.push(coin);
                        }
                    }
                } else {
                    this_round_votes.push(false);
                }
                k = k + 1;
            }
            proof {
                assert(this_round_votes@ =~= self.votes_at(x as int, d as int));
            }
            prev_round_votes = this_round_votes;
            voter_round = voter_round + 1;
        }
        WitnessFamousness::Undecided
    }

    /// Determines whether the event is a famous witness. A decision that
    /// the registry holds is final and is returned as it is; else the voting
    /// is run on the graph as it stands. Fails with `NotWitness` if the
    /// event is no witness.
    pub fn is_famous_witness(&self, event_hash: &hash::Hash) -> (result: Result<
        WitnessFamousness,
        NotWitness,
    >)
        requires
            self.wf(),
            self.contains(event_hash@),
        ensures
            match result {
                Ok(fame) => self.is_witness(event_hash@) && fame == self.fame(event_hash@),
                Err(_) => !self.is_witness(event_hash@),
            },
    {
        let x = self.position(event_hash).unwrap();
        proof {
            self.lemma_index_of(event_hash@);
        }
        // Event must be a witness
        match self.entries[x].fame {
            None => Err(NotWitness),
            Some(WitnessFamousness::Yes) => Ok(WitnessFamousness::Yes),
            Some(WitnessFamousness::No) => Ok(WitnessFamousness::No),
            Some(WitnessFamousness::Undecided) => Ok(self.vote_on(x)),
        }
    }

    /// The graph is `before` but for the entry of the witness `h` in the
    /// witness registry.
    pub open spec fn same_but_fame(&self, before: &Graph, h: Seq<u8>) -> bool {
        &&& forall|g: Seq<u8>| #[trigger] self.contains(g) <==> before.contains(g)
        &&& forall|g: Seq<u8>| #[trigger]
            before.contains(g) ==> {
                &&& self.event_of(g) == before.event_of(g)
                &&& self.round(g) == before.round(g)
                &&& self.children_of(g) == before.children_of(g)
                &&& g != h ==> self.fame_of(g) == before.fame_of(g)
            }
        &&& self.peers() == before.peers()
        &&& forall|p: crate::event::PeerId| #[trigger]
            before.peers().contains(p) ==> self.genesis_of(p) == before.genesis_of(p)
                && self.latest_of(p) == before.latest_of(p)
        &&& self.rounds() == before.rounds()
        &&& self.coin() == before.coin()
        &&& self.owner() == before.owner()
    }

    /// Commits the fame of a witness to the witness registry: what
    /// `is_famous_witness` returns for it. A decision that the registry
    /// holds already stays. Fails with `NotWitness`, and changes nothing,
    /// if the event is no witness.
    pub fn decide_fame_for_witness(&mut self, event_hash: &hash::Hash) -> (result: Result<
        (),
        NotWitness,
    >)
        requires
            old(self).wf(),
            old(self).contains(event_hash@),
        ensures
            final(self).wf(),
            match result {
                Ok(_) => {
                    &&& old(self).is_witness(event_hash@)
                    &&& final(self).fame_of(event_hash@) == Some(old(self).fame(event_hash@))
                    &&& final(self).same_but_fame(old(self), event_hash@)
                },
                Err(_) => !old(self).is_witness(event_hash@) && *final(self) == *old(self),
            },
    {
        let fame = match self.is_famous_witness(event_hash) {
            Ok(fame) => fame,
            Err(error) => {
                return Err(error);
            },
        };
        let x = self.position(event_hash).unwrap();
        proof {
            self.lemma_index_of(event_hash@);
        }
        self.entries[x].fame = Some(fame);
        proof {
            let n = self.size();
            assert forall|i: int| 0 <= i < n implies {
                &&& #[trigger] self.entries@[i].event == old(self).entries@[i].event
                &&& self.entries@[i].parents == old(self).entries@[i].parents
                &&& self.entries@[i].children == old(self).entries@[i].children
                &&& self.entries@[i].round == old(self).entries@[i].round
                &&& self.witness_at(i) == old(self).witness_at(i)
            } by {}
            self.lemma_same_structure(old(self));
            assert forall|i: int| 0 <= i < n implies self.is_genesis_at(i) == old(self).is_genesis_at(
                i,
            ) && self.sp(i) == old(self).sp(i) && self.op(i) == old(self).op(i) && self.round_at(i)
                == old(self).round_at(i) && self.hash_at(i) == old(self).hash_at(i) by {
                assert(self.entries@[i].event == old(self).entries@[i].event);
            }
            assert(self.wf_rounds(n)) by {
                assert forall|i: int| 0 <= i < n implies 0 <= #[trigger] self.round_at(i)
                    < self.round_index@.len() by {
                    assert(0 <= old(self).round_at(i) < old(self).round_index@.len());
                }
                assert forall|q: int, i: usize| 0 <= q < self.round_index@.len() implies (
                #[trigger] self.round_index@[q]@.contains(i) <==> i < n && self.round_at(i as int)
                    == q) by {
                    assert(old(self).round_index@[q]@.contains(i) <==> i < n && old(self).round_at(
                        i as int,
                    ) == q);
                }
                assert forall|i: int| 0 <= i < n && #[trigger] self.is_genesis_at(i) implies
                    self.round_at(i) == 0 && self.witness_at(i) by {
                    assert(old(self).is_genesis_at(i));
                    assert(self.entries@[i].event == old(self).entries@[i].event);
                }
                assert forall|i: int| 0 <= i < n && !(#[trigger] self.is_genesis_at(i)) implies {
                    &&& self.parent_round_at(i) <= self.round_at(i) <= self.parent_round_at(i) + 1
                    &&& self.witness_at(i) <==> self.round_at(i) > self.round_at(self.sp(i))
                } by {
                    assert(!old(self).is_genesis_at(i));
                    assert(self.entries@[i].event == old(self).entries@[i].event);
                }
            }
            assert forall|g: Seq<u8>| #[trigger] old(self).contains(g) implies self.contains(g)
                && self.index_of(g) == old(self).index_of(g) by {
                old(self).lemma_index_of(g);
                let i = old(self).index_of(g);
                assert(self.hash_at(i) == g);
                self.lemma_position(i);
            }
            assert forall|g: Seq<u8>| #[trigger] self.contains(g) implies old(self).contains(g) by {
                self.lemma_index_of(g);
                let i = self.index_of(g);
                assert(old(self).hash_at(i) == g);
            }
            assert forall|g: Seq<u8>| #[trigger] old(self).contains(g) implies {
                &&& self.event_of(g) == old(self).event_of(g)
                &&& self.round(g) == old(self).round(g)
                &&& self.children_of(g) == old(self).children_of(g)
                &&& g != event_hash@ ==> self.fame_of(g) == old(self).fame_of(g)
            } by {
                old(self).lemma_index_of(g);
                let i = old(self).index_of(g);
                assert(self.entries@[i].event == old(self).entries@[i].event);
            }
        }
        Ok(())
    }
}

} // verus!
