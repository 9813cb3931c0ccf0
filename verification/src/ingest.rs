//! Ingestion: the checks an event passes before it is admitted, and the
//! updates that admit it.

use crate::event::{
    event_hash, ChildrenView, EventWrapper, FieldsView, Kind, KindView, Parents, PeerId,
    SelfChildView, SignedEvent, SignedView, UnsignedView,
};
use crate::graph::{
    Entry, Graph, PeerIndexEntry, PushError, PushErrorView, PushKind, RoundNum, WitnessFamousness,
};
use crate::hash;
use std::collections::HashMap;
use vstd::prelude::*;

verus! {

broadcast use vstd::std_specs::hash::group_hash_axioms;

impl Graph {
    /// Appends a genesis of a peer that the store does not know yet.
    pub(crate) fn admit_genesis(&mut self, event: SignedEvent, author: PeerId)
        requires
            old(self).wf_upto(old(self).size()),
            event@.is_genesis(),
            event@.author() == author,
            event@.hash() == event_hash(event@.unsigned.fields),
            !old(self).contains(event@.hash()),
            !old(self).peer_index@.contains_key(author),
        ensures
            final(self).staged(),
            final(self).size() == old(self).size() + 1,
            final(self).event_at(old(self).size()) == event@,
            final(self).is_genesis_at(old(self).size()),
            final(self).entries@[old(self).size()].event.spec_children() == (ChildrenView {
                self_child: SelfChildView::NoChild,
                other_children: Seq::empty(),
            }),
            forall|i: int|
                0 <= i < old(self).size() ==> #[trigger] final(self).entries@[i] == old(self).entries@[i],
            final(self).peer_index@.dom() == old(self).peer_index@.dom().insert(author),
            forall|p: PeerId|
                p != author && old(self).peer_index@.contains_key(p) ==> #[trigger] final(self).peer_index@[p] == old(self).peer_index@[p],
            final(self).peer_index@[author].genesis@ == event@.hash(),
            final(self).peer_index@[author].latest_event@ == event@.hash(),
            final(self).round_index == old(self).round_index,
            final(self).self_id == old(self).self_id,
            final(self).coin_frequency == old(self).coin_frequency,
    {
        let at = self.entries.len();
        let digest = *event.hash();
        let wrapper = EventWrapper::new(event);
        self.entries.push(
            Entry { event: wrapper, parents: None, children: Vec::new(), round: 0, fame: None },
        );
        self.peer_index.insert(author, PeerIndexEntry::new(digest, at));
        proof {
            let n = old(self).size();
            assert(self.entries@ == old(self).entries@.push(self.entries@[n]));
            assert forall|i: int| 0 <= i < n implies #[trigger] self.entries@[i] == old(self).entries@[i] by {}
            assert forall|i: int| 0 <= i < n implies #[trigger] self.hash_at(i) == old(self).hash_at(i)
                && self.author_at(i) == old(self).author_at(i) && self.is_genesis_at(i) == old(self).is_genesis_at(i) && self.event_at(i) == old(self).event_at(i) by {}
            assert(self.wf_digests()) by {
                assert forall|i: int| 0 <= i < self.size() implies #[trigger] self.hash_at(i)
                    == event_hash(self.event_at(i).unsigned.fields) by {
                    if i < n {
                        assert(old(self).hash_at(i) == event_hash(
                            old(self).event_at(i).unsigned.fields,
                        ));
                    }
                }
            }
            assert(self.wf_store()) by {
                assert forall|i: int, j: int| 0 <= i < j < self.size() implies #[trigger] self.hash_at(
                    i,
                ) != #[trigger] self.hash_at(j) by {
                    if j == n {
                        assert(old(self).hash_at(i) == self.hash_at(i));
                    } else {
                        assert(old(self).hash_at(i) != old(self).hash_at(j));
                    }
                }
                assert forall|i: int|
                    0 <= i < self.size() && !(#[trigger] self.is_genesis_at(i)) implies {
                    &&& 0 <= self.sp(i) < i
                    &&& 0 <= self.op(i) < i
                    &&& self.event_at(i).self_parent() == self.hash_at(self.sp(i))
                    &&& self.event_at(i).other_parent() == self.hash_at(self.op(i))
                    &&& self.author_at(self.sp(i)) == self.author_at(i)
                } by {
                    assert(!old(self).is_genesis_at(i));
                }
                assert forall|i: int, j: usize| 0 <= i < self.size() implies (
                #[trigger] self.entries@[i].children@.contains(j) <==> self.child_of(j as int, i)) by {
                    if self.child_of(j as int, i) {
                        assert(!old(self).is_genesis_at(j as int));
                        assert(old(self).child_of(j as int, i));
                    }
                    if i < n && old(self).child_of(j as int, i) {
                        assert(self.child_of(j as int, i));
                    }
                }
            }
            assert(self.wf_children()) by {
                assert forall|i: int, h: Seq<u8>| 0 <= i < self.size() implies (
                #[trigger] self.entries@[i].event.spec_children().self_child.list().contains(h)
                    <==> exists|j: int|
                    0 <= j < self.size() && !self.is_genesis_at(j) && self.sp(j) == i
                        && #[trigger] self.hash_at(j) == h) by {
                    if exists|j: int|
                        0 <= j < self.size() && !self.is_genesis_at(j) && self.sp(j) == i
                            && #[trigger] self.hash_at(j) == h {
                        let j = choose|j: int|
                            0 <= j < self.size() && !self.is_genesis_at(j) && self.sp(j) == i
                                && #[trigger] self.hash_at(j) == h;
                        assert(!old(self).is_genesis_at(j));
                        assert(old(self).hash_at(j) == h);
                    }
                    if i < n && old(self).entries@[i].event.spec_children().self_child.list().contains(
                        h,
                    ) {
                        let j = choose|j: int|
                            0 <= j < old(self).size() && !old(self).is_genesis_at(j) && old(self).sp(
                                j,
                            ) == i && #[trigger] old(self).hash_at(j) == h;
                        assert(self.hash_at(j) == h);
                    }
                }
                assert forall|i: int, h: Seq<u8>| 0 <= i < self.size() implies (
                #[trigger] self.entries@[i].event.spec_children().other_children.contains(h)
                    <==> exists|j: int|
                    0 <= j < self.size() && !self.is_genesis_at(j) && self.op(j) == i
                        && #[trigger] self.hash_at(j) == h) by {
                    if exists|j: int|
                        0 <= j < self.size() && !self.is_genesis_at(j) && self.op(j) == i
                            && #[trigger] self.hash_at(j) == h {
                        let j = choose|j: int|
                            0 <= j < self.size() && !self.is_genesis_at(j) && self.op(j) == i
                                && #[trigger] self.hash_at(j) == h;
                        assert(!old(self).is_genesis_at(j));
                        assert(old(self).hash_at(j) == h);
                    }
                    if i < n && old(self).entries@[i].event.spec_children().other_children.contains(
                        h,
                    ) {
                        let j = choose|j: int|
                            0 <= j < old(self).size() && !old(self).is_genesis_at(j) && old(self).op(
                                j,
                            ) == i && #[trigger] old(self).hash_at(j) == h;
                        assert(self.hash_at(j) == h);
                    }
                }
            }
            assert(self.wf_peers()) by {
                assert forall|i: int| 0 <= i < self.size() implies self.peer_index@.contains_key(
                    #[trigger] self.author_at(i),
                ) by {
                    if i < n {
                        assert(old(self).peer_index@.contains_key(old(self).author_at(i)));
                    }
                }
                assert forall|i: int|
                    0 <= i < self.size() && #[trigger] self.is_genesis_at(i) implies self.peer_index@[self.author_at(
                    i,
                )].genesis_at == i by {
                    if i < n {
                        assert(old(self).is_genesis_at(i));
                        assert(old(self).peer_index@.contains_key(old(self).author_at(i)));
                    }
                }
                assert forall|p: PeerId| #[trigger] self.peer_index@.contains_key(p) implies {
                    let entry = self.peer_index@[p];
                    &&& entry.genesis_at < self.size()
                    &&& entry.latest_at < self.size()
                    &&& self.is_genesis_at(entry.genesis_at as int)
                    &&& self.author_at(entry.genesis_at as int) == p
                    &&& self.author_at(entry.latest_at as int) == p
                    &&& entry.genesis@ == self.hash_at(entry.genesis_at as int)
                    &&& entry.latest_event@ == self.hash_at(entry.latest_at as int)
                    &&& !entry.forking
                    &&& self.entries@[entry.latest_at as int].event.spec_children().self_child is NoChild
                } by {
                    if p != author {
                        assert(old(self).peer_index@.contains_key(p));
                    }
                }
            }
            assert(self.wf_rounds(n)) by {
                assert forall|i: int| 0 <= i < n implies self.round_at(i) == old(self).round_at(i)
                    && self.witness_at(i) == old(self).witness_at(i) by {}
                assert forall|i: int| 0 <= i < n && #[trigger] self.is_genesis_at(i) implies
                    self.round_at(i) == 0 && self.witness_at(i) by {
                    assert(old(self).is_genesis_at(i));
                }
                assert forall|i: int| 0 <= i < n && !(#[trigger] self.is_genesis_at(i)) implies {
                    &&& self.parent_round_at(i) <= self.round_at(i) <= self.parent_round_at(i) + 1
                    &&& self.witness_at(i) <==> self.round_at(i) > self.round_at(self.sp(i))
                } by {
                    assert(!old(self).is_genesis_at(i));
                }
                assert forall|i: int| 0 <= i < n implies 0 <= #[trigger] self.round_at(i)
                    < self.round_index@.len() by {
                    assert(0 <= old(self).round_at(i) < old(self).round_index@.len());
                }
                assert forall|r: int, i: usize| 0 <= r < self.round_index@.len() implies (
                #[trigger] self.round_index@[r]@.contains(i) <==> i < n && self.round_at(i as int)
                    == r) by {
                    assert(old(self).round_index@[r]@.contains(i) <==> i < n && old(self).round_at(
                        i as int,
                    ) == r);
                }
            }
        }
    }

    /// How the store differs after a regular event `event` of `author` with
    /// parents at `sp_at` and `op_at` was appended to `before`.
    pub open(crate) spec fn regular_delta(
        &self,
        before: &Graph,
        event: crate::event::SignedView,
        author: PeerId,
        sp_at: int,
        op_at: int,
    ) -> bool {
        let n = before.size();
        &&& self.size() == n + 1
        &&& self.event_at(n) == event
        &&& self.entries@[n].parents == Some((sp_at as usize, op_at as usize))
        &&& self.entries@[n].fame is None
        &&& forall|i: int|
            0 <= i < n ==> {
                &&& #[trigger] self.event_at(i) == before.event_at(i)
                &&& self.entries@[i].parents == before.entries@[i].parents
                &&& self.entries@[i].round == before.entries@[i].round
                &&& self.entries@[i].fame == before.entries@[i].fame
            }
        &&& forall|i: int, j: usize|
            0 <= i <= n ==> (#[trigger] self.entries@[i].children@.contains(j) <==> (i < n
                && before.entries@[i].children@.contains(j)) || (j == n && (i == sp_at || i
                == op_at)))
        &&& forall|i: int|
            0 <= i <= n ==> #[trigger] self.entries@[i].event.spec_children() == (ChildrenView {
                self_child: if i == sp_at {
                    SelfChildView::HonestChild(event.hash())
                } else if i < n {
                    before.entries@[i].event.spec_children().self_child
                } else {
                    SelfChildView::NoChild
                },
                other_children: if i == op_at {
                    before.entries@[i].event.spec_children().other_children.push(event.hash())
                } else if i < n {
                    before.entries@[i].event.spec_children().other_children
                } else {
                    Seq::<Seq<u8>>::empty()
                },
            })
        &&& self.peer_index@.dom() == before.peer_index@.dom()
        &&& forall|p: PeerId|
            p != author && before.peer_index@.contains_key(p) ==> #[trigger] self.peer_index@[p]
                == before.peer_index@[p]
        &&& self.peer_index@[author].genesis == before.peer_index@[author].genesis
        &&& self.peer_index@[author].genesis_at == before.peer_index@[author].genesis_at
        &&& self.peer_index@[author].latest_event@ == event.hash()
        &&& self.peer_index@[author].latest_at == n
        &&& !self.peer_index@[author].forking
        &&& self.round_index == before.round_index
        &&& self.self_id == before.self_id
        &&& self.coin_frequency == before.coin_frequency
    }

    /// What the caller of `admit_regular` has checked.
    pub open(crate) spec fn regular_admissible(
        &self,
        event: crate::event::SignedView,
        author: PeerId,
        sp_at: int,
        op_at: int,
    ) -> bool {
        &&& self.wf_upto(self.size())
        &&& 0 <= sp_at < self.size()
        &&& 0 <= op_at < self.size()
        &&& event.kind() == (KindView::Regular {
            self_parent: self.hash_at(sp_at),
            other_parent: self.hash_at(op_at),
        })
        &&& event.author() == author
        &&& event.hash() == event_hash(event.unsigned.fields)
        &&& self.peer_index@.contains_key(author)
        &&& self.peer_index@[author].latest_at == sp_at
        &&& !self.contains(event.hash())
    }

    /// Positions below the old size hold what they held.
    proof fn lemma_regular_frame(
        &self,
        before: &Graph,
        event: crate::event::SignedView,
        author: PeerId,
        sp_at: int,
        op_at: int,
    )
        requires
            before.regular_admissible(event, author, sp_at, op_at),
            self.regular_delta(before, event, author, sp_at, op_at),
        ensures
            forall|i: int| 0 <= i < before.size() ==> #[trigger] self.hash_at(i) == before.hash_at(i),
            forall|i: int|
                0 <= i < before.size() ==> #[trigger] self.author_at(i) == before.author_at(i),
            forall|i: int|
                0 <= i < before.size() ==> #[trigger] self.is_genesis_at(i) == before.is_genesis_at(
                    i,
                ),
            forall|i: int| 0 <= i < before.size() ==> #[trigger] self.sp(i) == before.sp(i),
            forall|i: int| 0 <= i < before.size() ==> #[trigger] self.op(i) == before.op(i),
            forall|i: int|
                0 <= i < before.size() ==> #[trigger] self.round_at(i) == before.round_at(i),
            forall|i: int|
                0 <= i < before.size() ==> #[trigger] self.witness_at(i) == before.witness_at(i),
            !self.is_genesis_at(before.size()),
            self.sp(before.size()) == sp_at,
            self.op(before.size()) == op_at,
            self.hash_at(before.size()) == event.hash(),
            self.author_at(before.size()) == author,
    {
        assert forall|i: int| 0 <= i < before.size() implies {
            &&& self.hash_at(i) == before.hash_at(i)
            &&& self.author_at(i) == before.author_at(i)
            &&& self.is_genesis_at(i) == before.is_genesis_at(i)
            &&& self.sp(i) == before.sp(i)
            &&& self.op(i) == before.op(i)
            &&& self.round_at(i) == before.round_at(i)
            &&& self.witness_at(i) == before.witness_at(i)
        } by {
            assert(self.event_at(i) == before.event_at(i));
        }
    }

    proof fn lemma_regular_store(
        &self,
        before: &Graph,
        event: crate::event::SignedView,
        author: PeerId,
        sp_at: int,
        op_at: int,
    )
        requires
            before.regular_admissible(event, author, sp_at, op_at),
            self.regular_delta(before, event, author, sp_at, op_at),
        ensures
            self.wf_store(),
    {
        let n = before.size();
        self.lemma_regular_frame(before, event, author, sp_at, op_at);
        assert forall|i: int, j: int| 0 <= i < j < self.size() implies #[trigger] self.hash_at(i)
            != #[trigger] self.hash_at(j) by {
            if j == n {
                assert(before.hash_at(i) == self.hash_at(i));
            } else {
                assert(before.hash_at(i) != before.hash_at(j));
            }
        }
        assert forall|i: int| 0 <= i < self.size() implies (#[trigger] self.entries@[i].parents is None
            <==> self.event_at(i).is_genesis()) by {
            if i < n {
                assert(self.event_at(i) == before.event_at(i));
            }
        }
        assert forall|i: int| 0 <= i < self.size() && !(#[trigger] self.is_genesis_at(i)) implies {
            &&& 0 <= self.sp(i) < i
            &&& 0 <= self.op(i) < i
            &&& self.event_at(i).self_parent() == self.hash_at(self.sp(i))
            &&& self.event_at(i).other_parent() == self.hash_at(self.op(i))
            &&& self.author_at(self.sp(i)) == self.author_at(i)
        } by {
            if i < n {
                assert(!before.is_genesis_at(i));
                assert(self.event_at(i) == before.event_at(i));
            } else {
                assert(before.peer_index@.contains_key(author));
            }
        }
        assert forall|i: int, j: usize| 0 <= i < self.size() implies (
        #[trigger] self.entries@[i].children@.contains(j) <==> self.child_of(j as int, i)) by {
            if j < n {
                if self.child_of(j as int, i) {
                    assert(!before.is_genesis_at(j as int));
                    assert(before.child_of(j as int, i));
                }
                if i < n && before.child_of(j as int, i) {
                    assert(self.child_of(j as int, i));
                }
            }
            if i < n && before.entries@[i].children@.contains(j) {
                assert(before.child_of(j as int, i));
            }
        }
    }

    proof fn lemma_regular_children(
        &self,
        before: &Graph,
        event: crate::event::SignedView,
        author: PeerId,
        sp_at: int,
        op_at: int,
    )
        requires
            before.regular_admissible(event, author, sp_at, op_at),
            self.regular_delta(before, event, author, sp_at, op_at),
        ensures
            self.wf_children(),
    {
        let n = before.size();
        let digest = event.hash();
        self.lemma_regular_frame(before, event, author, sp_at, op_at);
        assert(before.entries@[sp_at].event.spec_children().self_child is NoChild);
        assert forall|i: int, h: Seq<u8>| 0 <= i < self.size() implies (
        #[trigger] self.entries@[i].event.spec_children().self_child.list().contains(h)
            <==> exists|j: int|
            0 <= j < self.size() && !self.is_genesis_at(j) && self.sp(j) == i
                && #[trigger] self.hash_at(j) == h) by {
            let now = self.entries@[i].event.spec_children().self_child.list();
            assert(self.entries@[i].event.spec_children().other_children.len() >= 0);
            if exists|j: int|
                0 <= j < self.size() && !self.is_genesis_at(j) && self.sp(j) == i
                    && #[trigger] self.hash_at(j) == h {
                let j = choose|j: int|
                    0 <= j < self.size() && !self.is_genesis_at(j) && self.sp(j) == i
                        && #[trigger] self.hash_at(j) == h;
                if j < n {
                    assert(!before.is_genesis_at(j));
                    assert(before.hash_at(j) == h);
                    assert(before.entries@[i].event.spec_children().self_child.list().contains(h));
                    assert(i != sp_at);
                } else {
                    assert(now[0] == h);
                }
            }
            if now.contains(h) {
                if i == sp_at {
                    assert(h == digest);
                    assert(self.hash_at(n) == h);
                } else {
                    assert(i < n);
                    assert(before.entries@[i].event.spec_children().self_child.list().contains(h));
                    let j = choose|j: int|
                        0 <= j < before.size() && !before.is_genesis_at(j) && before.sp(j) == i
                            && #[trigger] before.hash_at(j) == h;
                    assert(self.hash_at(j) == h);
                }
            }
        }
        assert forall|i: int, h: Seq<u8>| 0 <= i < self.size() implies (
        #[trigger] self.entries@[i].event.spec_children().other_children.contains(h)
            <==> exists|j: int|
            0 <= j < self.size() && !self.is_genesis_at(j) && self.op(j) == i
                && #[trigger] self.hash_at(j) == h) by {
            let now = self.entries@[i].event.spec_children().other_children;
            let was = if i < n {
                before.entries@[i].event.spec_children().other_children
            } else {
                Seq::<Seq<u8>>::empty()
            };
            if exists|j: int|
                0 <= j < self.size() && !self.is_genesis_at(j) && self.op(j) == i
                    && #[trigger] self.hash_at(j) == h {
                let j = choose|j: int|
                    0 <= j < self.size() && !self.is_genesis_at(j) && self.op(j) == i
                        && #[trigger] self.hash_at(j) == h;
                if j < n {
                    assert(!before.is_genesis_at(j));
                    assert(before.hash_at(j) == h);
                    assert(was.contains(h));
                    let k = choose|k: int| 0 <= k < was.len() && was[k] == h;
                    assert(now[k] == h);
                } else {
                    assert(now[now.len() - 1] == h);
                }
            }
            if now.contains(h) {
                let k = choose|k: int| 0 <= k < now.len() && now[k] == h;
                if k < was.len() {
                    assert(was[k] == h);
                    assert(was.contains(h));
                    let j = choose|j: int|
                        0 <= j < before.size() && !before.is_genesis_at(j) && before.op(j) == i
                            && #[trigger] before.hash_at(j) == h;
                    assert(self.hash_at(j) == h);
                } else {
                    assert(self.hash_at(n) == h);
                }
            }
        }
    }

    proof fn lemma_regular_peers(
        &self,
        before: &Graph,
        event: crate::event::SignedView,
        author: PeerId,
        sp_at: int,
        op_at: int,
    )
        requires
            before.regular_admissible(event, author, sp_at, op_at),
            self.regular_delta(before, event, author, sp_at, op_at),
        ensures
            self.wf_peers(),
    {
        let n = before.size();
        self.lemma_regular_frame(before, event, author, sp_at, op_at);
        assert forall|i: int| 0 <= i < self.size() implies self.peer_index@.contains_key(
            #[trigger] self.author_at(i),
        ) by {
            if i < n {
                assert(before.peer_index@.contains_key(before.author_at(i)));
            }
        }
        assert forall|i: int|
            0 <= i < self.size() && #[trigger] self.is_genesis_at(i) implies self.peer_index@[self.author_at(
            i,
        )].genesis_at == i by {
            assert(before.is_genesis_at(i));
            assert(before.peer_index@.contains_key(before.author_at(i)));
        }
        assert forall|p: PeerId| #[trigger] self.peer_index@.contains_key(p) implies {
            let entry = self.peer_index@[p];
            &&& entry.genesis_at < self.size()
            &&& entry.latest_at < self.size()
            &&& self.is_genesis_at(entry.genesis_at as int)
            &&& self.author_at(entry.genesis_at as int) == p
            &&& self.author_at(entry.latest_at as int) == p
            &&& entry.genesis@ == self.hash_at(entry.genesis_at as int)
            &&& entry.latest_event@ == self.hash_at(entry.latest_at as int)
            &&& !entry.forking
            &&& self.entries@[entry.latest_at as int].event.spec_children().self_child is NoChild
        } by {
            assert(before.peer_index@.contains_key(p));
            let was = before.peer_index@[p];
            assert(self.hash_at(was.genesis_at as int) == before.hash_at(was.genesis_at as int));
            if p != author {
                assert(was.latest_at != sp_at) by {
                    assert(before.author_at(was.latest_at as int) == p);
                }
                assert(self.hash_at(was.latest_at as int) == before.hash_at(was.latest_at as int));
                assert(self.entries@[was.latest_at as int].event.spec_children().self_child
                    == before.entries@[was.latest_at as int].event.spec_children().self_child);
            } else {
                assert(self.entries@[n].event.spec_children().self_child is NoChild);
            }
        }
        assert forall|i: int| 0 <= i < self.size() implies !(
        #[trigger] self.entries@[i].event.spec_children().self_child is Forking) by {
            assert(self.entries@[i].event.spec_children().other_children.len() >= 0);
            if i < n {
                assert(!(before.entries@[i].event.spec_children().self_child is Forking));
            }
        }
    }

    /// Appending an event leaves the rounds of the events before it as they
    /// were.
    pub(crate) proof fn lemma_rounds_frame(&self, before: &Graph)
        requires
            before.wf_store(),
            before.wf_rounds(before.size()),
            before.size() <= self.size(),
            self.round_index == before.round_index,
            forall|i: int|
                0 <= i < before.size() ==> {
                    &&& #[trigger] self.entries@[i].parents == before.entries@[i].parents
                    &&& self.entries@[i].round == before.entries@[i].round
                    &&& self.entries@[i].fame == before.entries@[i].fame
                },
        ensures
            self.wf_rounds(before.size()),
    {
        let n = before.size();
        assert forall|i: int| 0 <= i < n implies self.round_at(i) == before.round_at(i)
            && self.witness_at(i) == before.witness_at(i) && self.is_genesis_at(i)
            == before.is_genesis_at(i) && self.sp(i) == before.sp(i) && self.op(i) == before.op(
            i,
        ) by {
            assert(self.entries@[i].parents == before.entries@[i].parents);
        }
        assert forall|i: int| 0 <= i < n && #[trigger] self.is_genesis_at(i) implies self.round_at(i)
            == 0 && self.witness_at(i) by {
            assert(before.is_genesis_at(i));
        }
        assert forall|i: int| 0 <= i < n && !(#[trigger] self.is_genesis_at(i)) implies {
            &&& self.parent_round_at(i) <= self.round_at(i) <= self.parent_round_at(i) + 1
            &&& self.witness_at(i) <==> self.round_at(i) > self.round_at(self.sp(i))
        } by {
            assert(!before.is_genesis_at(i));
            assert(self.entries@[i].parents == before.entries@[i].parents);
            assert(self.entries@[self.sp(i)].parents == before.entries@[self.sp(i)].parents);
            assert(self.entries@[self.op(i)].parents == before.entries@[self.op(i)].parents);
        }
        assert forall|i: int| 0 <= i < n implies 0 <= #[trigger] self.round_at(i)
            < self.round_index@.len() by {
            assert(0 <= before.round_at(i) < before.round_index@.len());
        }
        assert forall|r: int, i: usize| 0 <= r < self.round_index@.len() implies (
        #[trigger] self.round_index@[r]@.contains(i) <==> i < n && self.round_at(i as int) == r) by {
            assert(before.round_index@[r]@.contains(i) <==> i < n && before.round_at(i as int)
                == r);
        }
    }

    /// Appends a regular event whose parents stand at `sp_at` (the latest
    /// event of the author) and `op_at`, and records it with both.
    pub(crate) fn admit_regular(
        &mut self,
        event: SignedEvent,
        author: PeerId,
        sp_at: usize,
        op_at: usize,
    )
        requires
            old(self).regular_admissible(event@, author, sp_at as int, op_at as int),
        ensures
            final(self).staged(),
            final(self).regular_delta(old(self), event@, author, sp_at as int, op_at as int),
    {
        let at = self.entries.len();
        let digest = *event.hash();
        let ghost n = old(self).size();
        let wrapper = EventWrapper::new(event);
        assert(old(self).entries@[sp_at as int].event.spec_children().self_child is NoChild);
        self.entries.push(
            Entry {
                event: wrapper,
                parents: Some((sp_at, op_at)),
                children: Vec::new(),
                round: 0,
                fame: None,
            },
        );
        let ghost appended = self.entries@;
        // update the pointers of the parents
        let dishonesty = self.entries[sp_at].event.add_self_child(digest);
        self.entries[sp_at].children.push(at);
        let ghost linked_sp = self.entries@;
        self.entries[op_at].event.add_other_child(digest);
        self.entries[op_at].children.push(at);
        let mut author_index = *self.peer_index.get(&author).unwrap();
        author_index.add_latest(digest, at, dishonesty);
        self.peer_index.insert(author, author_index);
        proof {
            assert(!dishonesty);
            assert(self.entries@.len() == n + 1);
            assert forall|i: int| 0 <= i < n implies {
                &&& #[trigger] self.event_at(i) == old(self).event_at(i)
                &&& self.entries@[i].parents == old(self).entries@[i].parents
                &&& self.entries@[i].round == old(self).entries@[i].round
                &&& self.entries@[i].fame == old(self).entries@[i].fame
            } by {
                assert(appended[i] == old(self).entries@[i]);
            }
            assert forall|i: int, j: usize| 0 <= i <= n implies (
            #[trigger] self.entries@[i].children@.contains(j) <==> (i < n && old(self).entries@[i].children@.contains(j)) || (j == n && (i == sp_at || i == op_at))) by {
                let was = if i < n {
                    old(self).entries@[i].children@
                } else {
                    Seq::<usize>::empty()
                };
                let now = self.entries@[i].children@;
                assert(appended[i].children@ == was);
                if i == sp_at && i == op_at {
                    assert(linked_sp[i].children@ == was.push(at));
                    assert(now == was.push(at).push(at));
                    assert(now[now.len() - 1] == at);
                    assert forall|k: int| 0 <= k < was.len() implies now[k] == was[k] by {}
                } else if i == sp_at {
                    assert(now == was.push(at));
                    assert(now[now.len() - 1] == at);
                    assert forall|k: int| 0 <= k < was.len() implies now[k] == was[k] by {}
                } else if i == op_at {
                    assert(now == was.push(at));
                    assert(now[now.len() - 1] == at);
                    assert forall|k: int| 0 <= k < was.len() implies now[k] == was[k] by {}
                } else {
                    assert(now == was);
                }
                if was.contains(j) {
                    let k = choose|k: int| 0 <= k < was.len() && was[k] == j;
                    assert(now[k] == j);
                }
            }
            assert forall|i: int| 0 <= i <= n implies #[trigger] self.entries@[i].event.spec_children()
                == (ChildrenView {
                self_child: if i == sp_at {
                    SelfChildView::HonestChild(digest@)
                } else if i < n {
                    old(self).entries@[i].event.spec_children().self_child
                } else {
                    SelfChildView::NoChild
                },
                other_children: if i == op_at {
                    old(self).entries@[i].event.spec_children().other_children.push(digest@)
                } else if i < n {
                    old(self).entries@[i].event.spec_children().other_children
                } else {
                    Seq::<Seq<u8>>::empty()
                },
            }) by {
                if i < n {
                    assert(appended[i] == old(self).entries@[i]);
                }
            }
            assert(self.peer_index@.dom() =~= old(self).peer_index@.dom());
            assert(self.regular_delta(old(self), event@, author, sp_at as int, op_at as int));
            assert(self.wf_digests()) by {
                assert forall|i: int| 0 <= i < self.size() implies #[trigger] self.hash_at(i)
                    == event_hash(self.event_at(i).unsigned.fields) by {
                    if i < n {
                        assert(self.event_at(i) == old(self).event_at(i));
                        assert(old(self).hash_at(i) == event_hash(
                            old(self).event_at(i).unsigned.fields,
                        ));
                    }
                }
            }
            self.lemma_regular_store(old(self), event@, author, sp_at as int, op_at as int);
            self.lemma_regular_children(old(self), event@, author, sp_at as int, op_at as int);
            self.lemma_regular_peers(old(self), event@, author, sp_at as int, op_at as int);
            self.lemma_rounds_frame(old(self));
        }
    }

    /// Two stores with the same links have the same ancestry among the
    /// events that both hold.
    pub(crate) proof fn lemma_anc_prefix(&self, before: &Graph, x: int, y: int)
        requires
            before.size() <= self.size(),
            forall|i: int|
                0 <= i < before.size() ==> #[trigger] self.entries@[i].parents
                    == before.entries@[i].parents,
            0 <= x < before.size(),
        ensures
            self.anc(x, y) == before.anc(x, y),
        decreases x,
    {
        assert(self.entries@[x].parents == before.entries@[x].parents);
        if 0 <= y < x && !self.is_genesis_at(x) && 0 <= self.sp(x) < x && 0 <= self.op(x) < x {
            self.lemma_anc_prefix(before, self.sp(x), y);
            self.lemma_anc_prefix(before, self.op(x), y);
        }
    }

    /// Two stores of one size with the same events and links, and as many
    /// peers, agree on who strongly sees whom.
    pub(crate) proof fn lemma_strongly_sees_same(&self, before: &Graph, x: int, y: int)
        requires
            before.size() == self.size(),
            forall|i: int|
                0 <= i < before.size() ==> #[trigger] self.entries@[i].parents
                    == before.entries@[i].parents,
            forall|i: int|
                0 <= i < before.size() ==> #[trigger] self.event_at(i) == before.event_at(i),
            self.peer_index@.dom() == before.peer_index@.dom(),
            0 <= x < before.size(),
        ensures
            self.seers_at(x, y) == before.seers_at(x, y),
            self.strongly_sees_at(x, y) == before.strongly_sees_at(x, y),
    {
        assert forall|p: PeerId| self.seers_at(x, y).contains(p) <==> before.seers_at(
            x,
            y,
        ).contains(p) by {
            if self.seers_at(x, y).contains(p) {
                let a = choose|a: int|
                    #[trigger] self.anc(x, a) && self.anc(a, y) && self.author_at(a) == p;
                self.lemma_anc_prefix(before, x, a);
                self.lemma_anc_prefix(before, a, y);
                assert(self.event_at(a) == before.event_at(a));
                assert(before.anc(x, a) && before.anc(a, y) && before.author_at(a) == p);
            }
            if before.seers_at(x, y).contains(p) {
                let a = choose|a: int|
                    #[trigger] before.anc(x, a) && before.anc(a, y) && before.author_at(a) == p;
                self.lemma_anc_prefix(before, x, a);
                self.lemma_anc_prefix(before, a, y);
                assert(self.event_at(a) == before.event_at(a));
                assert(self.anc(x, a) && self.anc(a, y) && self.author_at(a) == p);
            }
        }
        assert(self.seers_at(x, y) =~= before.seers_at(x, y));
    }

    /// The store, the child pointers and the peer index do not depend on
    /// rounds and fame.
    pub(crate) proof fn lemma_same_structure(&self, before: &Graph)
        requires
            before.wf_digests(),
            before.wf_store(),
            before.wf_children(),
            before.wf_peers(),
            before.size() == self.size(),
            forall|i: int|
                0 <= i < before.size() ==> {
                    &&& #[trigger] self.entries@[i].event == before.entries@[i].event
                    &&& self.entries@[i].parents == before.entries@[i].parents
                    &&& self.entries@[i].children == before.entries@[i].children
                },
            self.peer_index == before.peer_index,
        ensures
            self.wf_digests(),
            self.wf_store(),
            self.wf_children(),
            self.wf_peers(),
    {
        assert forall|i: int| 0 <= i < self.size() implies #[trigger] self.hash_at(i) == event_hash(
            self.event_at(i).unsigned.fields,
        ) by {
            assert(self.entries@[i].event == before.entries@[i].event);
            assert(before.hash_at(i) == event_hash(before.event_at(i).unsigned.fields));
        }
        assert forall|i: int| 0 <= i < self.size() implies {
            &&& self.hash_at(i) == before.hash_at(i)
            &&& self.author_at(i) == before.author_at(i)
            &&& self.event_at(i) == before.event_at(i)
            &&& self.is_genesis_at(i) == before.is_genesis_at(i)
            &&& self.sp(i) == before.sp(i)
            &&& self.op(i) == before.op(i)
            &&& self.entries@[i].event.spec_children() == before.entries@[i].event.spec_children()
        } by {
            assert(self.entries@[i].event == before.entries@[i].event);
        }
        assert(self.wf_store()) by {
            assert forall|i: int, j: int| 0 <= i < j < self.size() implies #[trigger] self.hash_at(
                i,
            ) != #[trigger] self.hash_at(j) by {
                assert(before.hash_at(i) != before.hash_at(j));
            }
            assert forall|i: int| 0 <= i < self.size() implies (
            #[trigger] self.entries@[i].parents is None <==> self.event_at(i).is_genesis()) by {
                assert(before.entries@[i].parents is None <==> before.event_at(i).is_genesis());
            }
            assert forall|i: int|
                0 <= i < self.size() && !(#[trigger] self.is_genesis_at(i)) implies {
                &&& 0 <= self.sp(i) < i
                &&& 0 <= self.op(i) < i
                &&& self.event_at(i).self_parent() == self.hash_at(self.sp(i))
                &&& self.event_at(i).other_parent() == self.hash_at(self.op(i))
                &&& self.author_at(self.sp(i)) == self.author_at(i)
            } by {
                assert(!before.is_genesis_at(i));
            }
            assert forall|i: int, j: usize| 0 <= i < self.size() implies (
            #[trigger] self.entries@[i].children@.contains(j) <==> self.child_of(j as int, i)) by {
                assert(self.entries@[i].event == before.entries@[i].event);
                assert(before.entries@[i].children@.contains(j) <==> before.child_of(j as int, i));
                if 0 <= j < self.size() {
                    assert(self.entries@[j as int].event == before.entries@[j as int].event);
                    assert(self.is_genesis_at(j as int) == before.is_genesis_at(j as int));
                }
            }
        }
        assert(self.wf_children()) by {
            assert forall|i: int, h: Seq<u8>| 0 <= i < self.size() implies (
            #[trigger] self.entries@[i].event.spec_children().self_child.list().contains(h)
                <==> exists|j: int|
                0 <= j < self.size() && !self.is_genesis_at(j) && self.sp(j) == i
                    && #[trigger] self.hash_at(j) == h) by {
                if before.entries@[i].event.spec_children().self_child.list().contains(h) {
                    let j = choose|j: int|
                        0 <= j < before.size() && !before.is_genesis_at(j) && before.sp(j) == i
                            && #[trigger] before.hash_at(j) == h;
                    assert(self.hash_at(j) == h);
                }
                if exists|j: int|
                    0 <= j < self.size() && !self.is_genesis_at(j) && self.sp(j) == i
                        && #[trigger] self.hash_at(j) == h {
                    let j = choose|j: int|
                        0 <= j < self.size() && !self.is_genesis_at(j) && self.sp(j) == i
                            && #[trigger] self.hash_at(j) == h;
                    assert(before.hash_at(j) == h);
                }
            }
            assert forall|i: int, h: Seq<u8>| 0 <= i < self.size() implies (
            #[trigger] self.entries@[i].event.spec_children().other_children.contains(h)
                <==> exists|j: int|
                0 <= j < self.size() && !self.is_genesis_at(j) && self.op(j) == i
                    && #[trigger] self.hash_at(j) == h) by {
                if before.entries@[i].event.spec_children().other_children.contains(h) {
                    let j = choose|j: int|
                        0 <= j < before.size() && !before.is_genesis_at(j) && before.op(j) == i
                            && #[trigger] before.hash_at(j) == h;
                    assert(self.hash_at(j) == h);
                }
                if exists|j: int|
                    0 <= j < self.size() && !self.is_genesis_at(j) && self.op(j) == i
                        && #[trigger] self.hash_at(j) == h {
                    let j = choose|j: int|
                        0 <= j < self.size() && !self.is_genesis_at(j) && self.op(j) == i
                            && #[trigger] self.hash_at(j) == h;
                    assert(before.hash_at(j) == h);
                }
            }
        }
        assert(self.wf_peers()) by {
            assert forall|i: int| 0 <= i < self.size() implies self.peer_index@.contains_key(
                #[trigger] self.author_at(i),
            ) by {
                assert(before.peer_index@.contains_key(before.author_at(i)));
            }
            assert forall|i: int|
                0 <= i < self.size() && #[trigger] self.is_genesis_at(i) implies self.peer_index@[self.author_at(
                i,
            )].genesis_at == i by {
                assert(before.is_genesis_at(i));
            }
            assert forall|i: int| 0 <= i < self.size() implies !(
            #[trigger] self.entries@[i].event.spec_children().self_child is Forking) by {
                assert(!(before.entries@[i].event.spec_children().self_child is Forking));
            }
        }
    }

    /// The round rule of the last event does not read the round or the fame
    /// of that event.
    pub(crate) proof fn lemma_round_rule_same(&self, before: &Graph)
        requires
            before.size() == self.size(),
            before.size() >= 1,
            before.wf_store(),
            forall|i: int|
                0 <= i < before.size() ==> {
                    &&& #[trigger] self.entries@[i].event == before.entries@[i].event
                    &&& self.entries@[i].parents == before.entries@[i].parents
                },
            forall|i: int|
                0 <= i < before.size() - 1 ==> {
                    &&& #[trigger] self.entries@[i].round == before.entries@[i].round
                    &&& self.entries@[i].fame == before.entries@[i].fame
                },
            self.peer_index@.dom() == before.peer_index@.dom(),
        ensures
            self.round_rule_at(self.size() - 1) == before.round_rule_at(self.size() - 1),
    {
        let e = self.size() - 1;
        assert(self.entries@[e].event == before.entries@[e].event);
        assert(self.entries@[e].parents == before.entries@[e].parents);
        assert forall|i: int| 0 <= i < self.size() implies #[trigger] self.event_at(i)
            == before.event_at(i) by {
            assert(self.entries@[i].event == before.entries@[i].event);
        }
        assert forall|i: int| 0 <= i < self.size() implies #[trigger] self.entries@[i].parents
            == before.entries@[i].parents by {
            assert(self.entries@[i].event == before.entries@[i].event);
        }
        if !self.is_genesis_at(e) {
            assert(!before.is_genesis_at(e));
            assert(self.entries@[self.sp(e)].round == before.entries@[self.sp(e)].round);
            assert(self.entries@[self.op(e)].round == before.entries@[self.op(e)].round);
            let r = self.parent_round_at(e);
            assert(r == before.parent_round_at(e));
            assert forall|p: PeerId| self.witnesses_seen_at(e, r).contains(p)
                <==> before.witnesses_seen_at(e, r).contains(p) by {
                if self.witnesses_seen_at(e, r).contains(p) {
                    let w = choose|w: int|
                        0 <= w < self.size() && w != e && #[trigger] self.round_at(w) == r
                            && self.witness_at(w) && self.strongly_sees_at(e, w) && self.author_at(w)
                            == p;
                    self.lemma_strongly_sees_same(before, e, w);
                    assert(self.entries@[w].round == before.entries@[w].round);
                    assert(before.round_at(w) == r);
                    assert(self.event_at(w) == before.event_at(w));
                }
                if before.witnesses_seen_at(e, r).contains(p) {
                    let w = choose|w: int|
                        0 <= w < before.size() && w != e && #[trigger] before.round_at(w) == r
                            && before.witness_at(w) && before.strongly_sees_at(e, w)
                            && before.author_at(w) == p;
                    self.lemma_strongly_sees_same(before, e, w);
                    assert(self.entries@[w].round == before.entries@[w].round);
                    assert(self.round_at(w) == r);
                    assert(self.event_at(w) == before.event_at(w));
                }
            }
            assert(self.witnesses_seen_at(e, r) =~= before.witnesses_seen_at(e, r));
        }
    }

    /// Gives the last event its round, enters it in the list of that round,
    /// and in the witness registry if it is a witness.
    pub(crate) fn assign_round(&mut self, r: RoundNum)
        requires
            old(self).staged(),
            r == old(self).round_rule_at(old(self).size() - 1),
            r <= old(self).round_index@.len(),
            old(self).is_genesis_at(old(self).size() - 1) ==> r == 0,
            !old(self).is_genesis_at(old(self).size() - 1) ==> old(self).parent_round_at(
                old(self).size() - 1,
            ) <= r <= old(self).parent_round_at(old(self).size() - 1) + 1,
        ensures
            final(self).wf(),
            final(self).size() == old(self).size(),
            forall|i: int|
                0 <= i < old(self).size() ==> {
                    &&& #[trigger] final(self).entries@[i].event == old(self).entries@[i].event
                    &&& final(self).entries@[i].parents == old(self).entries@[i].parents
                    &&& final(self).entries@[i].children == old(self).entries@[i].children
                },
            forall|i: int|
                0 <= i < old(self).size() - 1 ==> {
                    &&& #[trigger] final(self).entries@[i].round == old(self).entries@[i].round
                    &&& final(self).entries@[i].fame == old(self).entries@[i].fame
                },
            final(self).round_at(old(self).size() - 1) == r,
            final(self).round_at(old(self).size() - 1) == final(self).round_rule_at(
                old(self).size() - 1,
            ),
            final(self).entries@[old(self).size() - 1].fame == (if final(self).is_genesis_at(
                old(self).size() - 1,
            ) || r > final(self).round_at(final(self).sp(old(self).size() - 1)) {
                Some(WitnessFamousness::Undecided)
            } else {
                None
            }),
            final(self).peer_index == old(self).peer_index,
            final(self).round_index@.len() == (if r == old(self).round_index@.len() {
                old(self).round_index@.len() + 1
            } else {
                old(self).round_index@.len()
            }),
            final(self).self_id == old(self).self_id,
            final(self).coin_frequency == old(self).coin_frequency,
    {
        let e = self.entries.len() - 1;
        let ghost rounds_before = self.round_index@;
        self.entries[e].round = r;
        if r >= self.round_index.len() {
            // Create a new round
            let mut round_hs: Vec<usize> = Vec::new();
            round_hs.push(e);
            self.round_index.push(round_hs);
        } else {
            // Otherwise enter it in the list of its round
            self.round_index[r].push(e);
        }
        // Set witness status
        let witness = match self.entries[e].parents {
            None => true,
            Some((self_parent, _)) => r > self.entries[self_parent].round,
        };
        if witness {
            self.entries[e].fame = Some(WitnessFamousness::Undecided);
        }
        proof {
            let n = old(self).size();
            assert forall|i: int| 0 <= i < n implies {
                &&& #[trigger] self.entries@[i].event == old(self).entries@[i].event
                &&& self.entries@[i].parents == old(self).entries@[i].parents
                &&& self.entries@[i].children == old(self).entries@[i].children
            } by {}
            self.lemma_same_structure(old(self));
            self.lemma_round_rule_same(old(self));
            assert forall|i: int| 0 <= i < n implies self.is_genesis_at(i) == old(self).is_genesis_at(
                i,
            ) && self.sp(i) == old(self).sp(i) && self.op(i) == old(self).op(i) by {
                assert(self.entries@[i].parents == old(self).entries@[i].parents);
            }
            assert forall|i: int| 0 <= i < n - 1 implies self.round_at(i) == old(self).round_at(i)
                && self.witness_at(i) == old(self).witness_at(i) by {}
            assert(self.wf_rounds(n)) by {
                assert forall|i: int| 0 <= i < n implies 0 <= #[trigger] self.round_at(i)
                    < self.round_index@.len() by {
                    if i < n - 1 {
                        assert(0 <= old(self).round_at(i) < rounds_before.len());
                    }
                }
                assert forall|q: int, i: usize| 0 <= q < self.round_index@.len() implies (
                #[trigger] self.round_index@[q]@.contains(i) <==> i < n && self.round_at(i as int)
                    == q) by {
                    if q < rounds_before.len() {
                        let was = rounds_before[q]@;
                        let now = self.round_index@[q]@;
                        assert(was.contains(i) <==> i < n - 1 && old(self).round_at(i as int) == q);
                        if q == r {
                            assert(now == was.push(e));
                            assert(now[now.len() - 1] == e);
                            if was.contains(i) {
                                let k = choose|k: int| 0 <= k < was.len() && was[k] == i;
                                assert(now[k] == i);
                            }
                        } else {
                            assert(now == was);
                        }
                    } else {
                        let now = self.round_index@[q]@;
                        assert(now == seq![e]);
                        assert(now[0] == e);
                        if i < n - 1 {
                            assert(0 <= old(self).round_at(i as int) < rounds_before.len());
                        }
                    }
                }
                assert forall|q: int| 0 <= q < self.round_index@.len() implies (
                #[trigger] self.round_index@[q])@.no_duplicates() by {
                    if q < rounds_before.len() {
                        let was = rounds_before[q]@;
                        assert(was.no_duplicates());
                        if q == r {
                            assert(rounds_before[q]@.contains(e) <==> e < n - 1 && old(self).round_at(e as int) == q);
                            assert(!was.contains(e));
                            assert forall|k: int| 0 <= k < was.len() implies was[k] != e by {
                                assert(was.contains(was[k]));
                            }
                        }
                    }
                }
                assert forall|i: int| 0 <= i < n && #[trigger] self.is_genesis_at(i) implies
                    self.round_at(i) == 0 && self.witness_at(i) by {
                    assert(old(self).is_genesis_at(i));
                }
                assert forall|i: int| 0 <= i < n && !(#[trigger] self.is_genesis_at(i)) implies {
                    &&& self.parent_round_at(i) <= self.round_at(i) <= self.parent_round_at(i) + 1
                    &&& self.witness_at(i) <==> self.round_at(i) > self.round_at(self.sp(i))
                } by {
                    assert(!old(self).is_genesis_at(i));
                }
            }
        }
    }

    /// The rules of rounds and witnesses by digest are the rules by position.
    pub(crate) proof fn lemma_rules_by_digest(&self, e: int)
        requires
            self.wf_store(),
            0 <= e < self.size(),
        ensures
            self.round_rule(self.hash_at(e)) == self.round_rule_at(e),
            self.witness_rule(self.hash_at(e)) == (self.is_genesis_at(e) || self.round_at(e)
                > self.round_at(self.sp(e))),
    {
        let h = self.hash_at(e);
        self.lemma_position(e);
        if !self.is_genesis_at(e) {
            self.lemma_position(self.sp(e));
            self.lemma_position(self.op(e));
            let below = self.parent_round_at(e);
            let by_digest = self.seen_witness_authors(h, below);
            let by_position = self.witnesses_seen_at(e, below);
            assert forall|p: PeerId| by_digest.contains(p) <==> by_position.contains(p) by {
                if by_digest.contains(p) {
                    let g = choose|g: Seq<u8>|
                        #![trigger self.strongly_sees(h, g)]
                        self.contains(g) && g != h && self.round(g) == below && self.is_witness(g)
                            && self.strongly_sees(h, g) && self.event_of(g).author() == p;
                    self.lemma_index_of(g);
                    let w = self.index_of(g);
                    self.lemma_seeing_peers(e, w);
                    assert(self.round_at(w) == below);
                    assert(self.strongly_sees_at(e, w));
                }
                if by_position.contains(p) {
                    let w = choose|w: int|
                        0 <= w < self.size() && w != e && #[trigger] self.round_at(w) == below
                            && self.witness_at(w) && self.strongly_sees_at(e, w) && self.author_at(w)
                            == p;
                    self.lemma_position(w);
                    self.lemma_seeing_peers(e, w);
                    assert(self.strongly_sees(h, self.hash_at(w)));
                }
            }
            assert(by_digest =~= by_position);
        }
    }

    /// What the admission of an event with the given fields, with parents
    /// at the positions `links`, did to the store `before`; rounds apart.
    pub open(crate) spec fn grown_from(
        &self,
        before: &Graph,
        fields: FieldsView,
        links: Option<(int, int)>,
    ) -> bool {
        &&& self.size() == before.size() + 1
        &&& self.event_at(before.size()) == (SignedView {
            unsigned: UnsignedView { fields, hash: event_hash(fields) },
            signature: event_hash(fields),
        })
        &&& match links {
            None => fields.kind is Genesis,
            Some((sp_at, op_at)) => {
                &&& 0 <= sp_at < before.size()
                &&& 0 <= op_at < before.size()
                &&& fields.kind == (KindView::Regular {
                    self_parent: before.hash_at(sp_at),
                    other_parent: before.hash_at(op_at),
                })
            },
        }
        &&& forall|i: int|
            0 <= i < before.size() ==> {
                &&& #[trigger] self.event_at(i) == before.event_at(i)
                &&& self.entries@[i].round == before.entries@[i].round
                &&& self.entries@[i].fame == before.entries@[i].fame
            }
        &&& forall|i: int|
            0 <= i <= before.size() ==> #[trigger] self.entries@[i].event.spec_children() == (
            ChildrenView {
                self_child: if links is Some && i == links.unwrap().0 {
                    SelfChildView::HonestChild(event_hash(fields))
                } else if i < before.size() {
                    before.entries@[i].event.spec_children().self_child
                } else {
                    SelfChildView::NoChild
                },
                other_children: if links is Some && i == links.unwrap().1 {
                    before.entries@[i].event.spec_children().other_children.push(
                        event_hash(fields),
                    )
                } else if i < before.size() {
                    before.entries@[i].event.spec_children().other_children
                } else {
                    Seq::<Seq<u8>>::empty()
                },
            })
        &&& self.peer_index@.dom() == before.peer_index@.dom().insert(fields.author)
        &&& forall|p: PeerId|
            p != fields.author && before.peer_index@.contains_key(p)
                ==> #[trigger] self.peer_index@[p] == before.peer_index@[p]
        &&& self.peer_index@[fields.author].latest_event@ == event_hash(fields)
        &&& self.peer_index@[fields.author].genesis@ == (if fields.kind is Genesis {
            event_hash(fields)
        } else {
            before.peer_index@[fields.author].genesis@
        })
        &&& self.coin_frequency == before.coin_frequency
        &&& self.self_id == before.self_id
    }

    /// The assignment of a round to the last event keeps what its admission
    /// did.
    pub(crate) proof fn lemma_grown_stable(
        &self,
        staged: &Graph,
        before: &Graph,
        fields: FieldsView,
        links: Option<(int, int)>,
    )
        requires
            staged.grown_from(before, fields, links),
            self.size() == staged.size(),
            forall|i: int|
                0 <= i < staged.size() ==> #[trigger] self.entries@[i].event
                    == staged.entries@[i].event,
            forall|i: int|
                0 <= i < staged.size() - 1 ==> {
                    &&& #[trigger] self.entries@[i].round == staged.entries@[i].round
                    &&& self.entries@[i].fame == staged.entries@[i].fame
                },
            self.peer_index == staged.peer_index,
            self.coin_frequency == staged.coin_frequency,
            self.self_id == staged.self_id,
        ensures
            self.grown_from(before, fields, links),
    {
        let n = before.size();
        assert(self.entries@[n].event == staged.entries@[n].event);
        assert forall|i: int| 0 <= i < n implies {
            &&& #[trigger] self.event_at(i) == before.event_at(i)
            &&& self.entries@[i].round == before.entries@[i].round
            &&& self.entries@[i].fame == before.entries@[i].fame
        } by {
            assert(self.entries@[i].event == staged.entries@[i].event);
            assert(staged.event_at(i) == before.event_at(i));
            assert(self.entries@[i].round == staged.entries@[i].round);
        }
        assert forall|i: int| 0 <= i <= n implies #[trigger] self.entries@[i].event.spec_children()
            == (ChildrenView {
            self_child: if links is Some && i == links.unwrap().0 {
                SelfChildView::HonestChild(event_hash(fields))
            } else if i < n {
                before.entries@[i].event.spec_children().self_child
            } else {
                SelfChildView::NoChild
            },
            other_children: if links is Some && i == links.unwrap().1 {
                before.entries@[i].event.spec_children().other_children.push(event_hash(fields))
            } else if i < n {
                before.entries@[i].event.spec_children().other_children
            } else {
                Seq::<Seq<u8>>::empty()
            },
        }) by {
            assert(self.entries@[i].event == staged.entries@[i].event);
            assert(staged.entries@[i].event.spec_children().other_children.len() >= 0);
        }
    }

    /// What `admitted` says by digest follows from what the updates did by
    /// position.
    pub(crate) proof fn lemma_admitted(
        &self,
        before: &Graph,
        fields: FieldsView,
        links: Option<(int, int)>,
    )
        requires
            before.wf(),
            self.wf(),
            !before.contains(event_hash(fields)),
            self.grown_from(before, fields, links),
            self.round_at(before.size()) == self.round_rule_at(before.size()),
            self.round_at(before.size()) <= before.round_index@.len(),
            self.entries@[before.size()].fame == (if self.is_genesis_at(before.size())
                || self.round_at(before.size()) > self.round_at(self.sp(before.size())) {
                Some(WitnessFamousness::Undecided)
            } else {
                None
            }),
            self.round_index@.len() == (if self.round_at(before.size())
                == before.round_index@.len() {
                before.round_index@.len() + 1
            } else {
                before.round_index@.len()
            }),
        ensures
            self.admitted(before, fields),
    {
        let n = before.size();
        let h = event_hash(fields);
        self.lemma_position(n);
        self.lemma_rules_by_digest(n);
        assert forall|i: int| 0 <= i < n implies self.hash_at(i) == before.hash_at(i) by {
            assert(self.event_at(i) == before.event_at(i));
        }
        assert forall|g: Seq<u8>| #[trigger] before.contains(g) implies self.contains(g)
            && self.index_of(g) == before.index_of(g) by {
            before.lemma_index_of(g);
            let i = before.index_of(g);
            assert(self.hash_at(i) == g);
            self.lemma_position(i);
        }
        assert forall|g: Seq<u8>| #[trigger] self.contains(g) implies before.contains(g) || g
            == h by {
            self.lemma_index_of(g);
            let i = self.index_of(g);
            if i < n {
                assert(before.hash_at(i) == g);
            }
        }
        assert forall|g: Seq<u8>| #[trigger] before.contains(g) implies {
            &&& self.event_of(g) == before.event_of(g)
            &&& self.round(g) == before.round(g)
            &&& self.fame_of(g) == before.fame_of(g)
            &&& self.children_of(g) == (ChildrenView {
                self_child: if fields.kind is Regular && g == fields.kind->self_parent {
                    SelfChildView::HonestChild(h)
                } else {
                    before.children_of(g).self_child
                },
                other_children: if fields.kind is Regular && g == fields.kind->other_parent {
                    before.children_of(g).other_children.push(h)
                } else {
                    before.children_of(g).other_children
                },
            })
        } by {
            before.lemma_index_of(g);
            let i = before.index_of(g);
            assert(self.event_at(i) == before.event_at(i));
            assert(self.entries@[i].event.spec_children().other_children.len() >= 0);
            if links is Some {
                before.lemma_position(links.unwrap().0);
                before.lemma_position(links.unwrap().1);
            }
        }
        assert(self.entries@[n].event.spec_children().other_children.len() >= 0);
        assert forall|p: PeerId|
            p != fields.author && #[trigger] before.peers().contains(p) implies self.genesis_of(p)
            == before.genesis_of(p) && self.latest_of(p) == before.latest_of(p) by {
            assert(self.peer_index@[p] == before.peer_index@[p]);
        }
    }

    /// Creates an event and pushes it to the graph, at the end of the lane
    /// of `author`: the self parent of a regular event is the latest event
    /// of `author`, and the event becomes the latest one. The event is
    /// signed with its own digest and has timestamp 0.
    ///
    /// The checks come before any change: a failed push leaves the graph as
    /// it was. A graph holds no fork, since the self parent is never chosen
    /// by the caller: `IncorrectAuthor` and `SelfChildAlreadyExists` are
    /// never returned.
    pub fn push_node(&mut self, payload: Vec<u8>, node_type: PushKind, author: PeerId) -> (result:
        Result<hash::Hash, PushError>)
        requires
            old(self).wf(),
        ensures
            final(self).wf(),
            match result {
                Ok(digest) => {
                    &&& old(self).push_outcome(payload@, node_type, author) matches Ok(fields)
                    &&& digest@ == event_hash(fields)
                    &&& final(self).admitted(old(self), fields)
                },
                Err(error) => {
                    &&& old(self).push_outcome(payload@, node_type, author) == Err::<
                        FieldsView,
                        PushErrorView,
                    >(error@)
                    &&& *final(self) == *old(self)
                },
            },
    {
        // Verification first, no changing state
        let ghost links: Option<(int, int)>;
        let new_node = match node_type {
            PushKind::Genesis => SignedEvent::new_fakely_signed(
                payload,
                Kind::Genesis(Vec::new()),
                author,
                0,
            ),
            PushKind::Regular(other_parent) => {
                let latest_author_event = match self.peer_index.get(&author) {
                    None => {
                        return Err(PushError::PeerNotFound(author));
                    },
                    Some(entry) => entry.latest_event,
                };
                SignedEvent::new_fakely_signed(
                    payload,
                    Kind::Regular(Parents { self_parent: latest_author_event, other_parent }),
                    author,
                    0,
                )
            },
        };
        let digest = *new_node.hash();
        let ghost fields = new_node@.unsigned.fields;
        if self.position(&digest).is_some() {
            return Err(PushError::NodeAlreadyExists(digest));
        }
        match node_type {
            PushKind::Genesis => {
                if self.peer_index.contains_key(&author) {
                    return Err(PushError::GenesisAlreadyExists);
                }
                proof {
                    links = None;
                }
                self.admit_genesis(new_node, author);
                proof {
                    assert forall|i: int| 0 <= i <= old(self).size() implies
                        #[trigger] self.entries@[i].event.spec_children() == (ChildrenView {
                        self_child: if i < old(self).size() {
                            old(self).entries@[i].event.spec_children().self_child
                        } else {
                            SelfChildView::NoChild
                        },
                        other_children: if i < old(self).size() {
                            old(self).entries@[i].event.spec_children().other_children
                        } else {
                            Seq::<Seq<u8>>::empty()
                        },
                    }) by {
                        if i < old(self).size() {
                            assert(self.entries@[i] == old(self).entries@[i]);
                        }
                    }
                    assert forall|i: int| 0 <= i < old(self).size() implies {
                        &&& #[trigger] self.event_at(i) == old(self).event_at(i)
                        &&& self.entries@[i].round == old(self).entries@[i].round
                        &&& self.entries@[i].fame == old(self).entries@[i].fame
                    } by {
                        assert(self.entries@[i] == old(self).entries@[i]);
                    }
                    assert(self.grown_from(old(self), fields, links));
                }
            },
            PushKind::Regular(other_parent) => {
                let op_at = match self.position(&other_parent) {
                    None => {
                        return Err(PushError::NoParent(other_parent));
                    },
                    Some(at) => at,
                };
                let sp_at = self.peer_index.get(&author).unwrap().latest_at;
                proof {
                    self.lemma_index_of(other_parent@);
                    links = Some((sp_at as int, op_at as int));
                }
                let self_parent_author = *self.entries[sp_at].event.author();
                if self_parent_author != author {
                    return Err(PushError::IncorrectAuthor(self_parent_author, author));
                }
                self.admit_regular(new_node, author, sp_at, op_at);
                proof {
                    assert(self.peer_index@.dom() =~= old(self).peer_index@.dom().insert(author));
                    assert(self.grown_from(old(self), fields, links));
                }
            },
        }
        let ghost staged = *self;
        // Set round
        let e = self.entries.len() - 1;
        let r = self.determine_round(e);
        self.assign_round(r);
        proof {
            self.lemma_grown_stable(&staged, old(self), fields, links);
            self.lemma_admitted(old(self), fields, links);
        }
        Ok(digest)
    }

    /// A graph of the peer `self_id` that holds the genesis of that peer,
    /// with the given payload, and nothing else.
    pub fn new(self_id: PeerId, genesis_payload: Vec<u8>, coin_frequency: usize) -> (graph: Graph)
        requires
            coin_frequency >= 1,
        ensures
            graph.wf(),
            graph.coin() == coin_frequency,
            graph.owner() == self_id,
            graph.peers() == Set::<PeerId>::empty().insert(self_id),
            graph.rounds() == 1,
            ({
                let fields = FieldsView {
                    user_payload: genesis_payload@,
                    kind: KindView::Genesis(Seq::empty()),
                    author: self_id,
                    timestamp: 0,
                };
                let h = event_hash(fields);
                &&& forall|g: Seq<u8>| #[trigger] graph.contains(g) <==> g == h
                &&& graph.event_of(h) == (SignedView {
                    unsigned: UnsignedView { fields, hash: h },
                    signature: h,
                })
                &&& graph.genesis_of(self_id) == h
                &&& graph.latest_of(self_id) == h
                &&& graph.round(h) == 0
                &&& graph.fame_of(h) == Some(WitnessFamousness::Undecided)
            }),
    {
        let mut rounds: Vec<Vec<usize>> = Vec::new();
        rounds.push(Vec::new());
        let mut graph = Graph {
            entries: Vec::new(),
            peer_index: HashMap::new(),
            round_index: rounds,
            self_id,
            coin_frequency,
        };
        let ghost empty = graph;
        assert(graph.wf());
        let pushed = graph.push_node(genesis_payload, PushKind::Genesis, self_id);
        proof {
            assert(empty.peers() =~= Set::<PeerId>::empty());
            assert(pushed is Ok);
        }
        graph
    }
}

} // verus!
