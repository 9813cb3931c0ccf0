//! What holds of every graph: the invariants of the store, of the peer index
//! and of the rounds, and the laws of ancestry.

use crate::event::{event_hash, FieldsView, PeerId};
use crate::graph::Graph;
use vstd::prelude::*;

verus! {

broadcast use vstd::std_specs::hash::group_hash_axioms;

impl Graph {
    /// Every stored event stands in the list of the round it was given, and
    /// in the list of no other round.
    pub proof fn lemma_round_index(&self, h: Seq<u8>)
        requires
            self.wf(),
            self.contains(h),
        ensures
            0 <= self.round(h) < self.rounds(),
            self.round_members(self.round(h)).contains(h),
            forall|r: int|
                0 <= r < self.rounds() && self.round_members(r).contains(h) ==> self.round(h) == r,
    {
        self.lemma_index_of(h);
        assert(0 <= self.round_at(self.index_of(h)) < self.rounds());
        self.lemma_round_members(self.round(h));
        assert forall|r: int|
            0 <= r < self.rounds() && self.round_members(r).contains(h) implies self.round(h)
            == r by {
            self.lemma_round_members(r);
        }
    }

    /// Both parents of a stored regular event are stored, and its self
    /// parent has the same author.
    pub proof fn lemma_parents_stored(&self, h: Seq<u8>)
        requires
            self.wf(),
            self.contains(h),
            !self.event_of(h).is_genesis(),
        ensures
            self.contains(self.event_of(h).self_parent()),
            self.contains(self.event_of(h).other_parent()),
            self.event_of(self.event_of(h).self_parent()).author() == self.event_of(h).author(),
            self.event_of(h).self_parent() != h,
            self.event_of(h).other_parent() != h,
    {
        self.lemma_index_of(h);
        let i = self.index_of(h);
        assert(!self.is_genesis_at(i));
        self.lemma_position(self.sp(i));
        self.lemma_position(self.op(i));
    }

    /// A stored event is in the witness registry if and only if it is a
    /// genesis or has a later round than its self parent.
    pub proof fn lemma_witness(&self, h: Seq<u8>)
        requires
            self.wf(),
            self.contains(h),
        ensures
            self.is_witness(h) <==> self.event_of(h).is_genesis() || self.round(h) > self.round(
                self.event_of(h).self_parent(),
            ),
            self.is_witness(h) <==> self.fame_of(h) is Some,
    {
        self.lemma_index_of(h);
        let i = self.index_of(h);
        if !self.is_genesis_at(i) {
            self.lemma_position(self.sp(i));
        }
    }

    /// The round of a genesis is 0; the round of a regular event is the
    /// greater round of its parents, or the next one.
    pub proof fn lemma_round_bounds(&self, h: Seq<u8>)
        requires
            self.wf(),
            self.contains(h),
        ensures
            self.event_of(h).is_genesis() ==> self.round(h) == 0,
            !self.event_of(h).is_genesis() ==> {
                let of_self_parent = self.round(self.event_of(h).self_parent());
                let of_other_parent = self.round(self.event_of(h).other_parent());
                let below = if of_self_parent >= of_other_parent {
                    of_self_parent
                } else {
                    of_other_parent
                };
                below <= self.round(h) <= below + 1
            },
    {
        self.lemma_index_of(h);
        let i = self.index_of(h);
        if !self.is_genesis_at(i) {
            self.lemma_position(self.sp(i));
            self.lemma_position(self.op(i));
        }
    }

    /// Ancestry is reflexive: every stored event is its own ancestor.
    pub proof fn lemma_ancestor_reflexive(&self, h: Seq<u8>)
        requires
            self.wf(),
            self.contains(h),
        ensures
            self.has_ancestor(h, h),
    {
        self.lemma_index_of(h);
        self.lemma_anc_reflexive(self.index_of(h));
    }

    /// Ancestry is transitive: an ancestor of an ancestor is an ancestor.
    pub proof fn lemma_ancestor_transitive(&self, a: Seq<u8>, b: Seq<u8>, c: Seq<u8>)
        requires
            self.wf(),
            self.has_ancestor(a, b),
            self.has_ancestor(b, c),
        ensures
            self.has_ancestor(a, c),
    {
        self.lemma_anc_transitive(self.index_of(a), self.index_of(b), self.index_of(c));
    }

    /// The ancestors of a stored event are the event itself and the
    /// ancestors of its parents; only stored events have ancestors.
    pub proof fn lemma_ancestor_unfold(&self, target: Seq<u8>, potential_ancestor: Seq<u8>)
        requires
            self.wf(),
        ensures
            self.has_ancestor(target, potential_ancestor) <==> self.contains(target) && (target
                == potential_ancestor || (!self.event_of(target).is_genesis() && (
            self.has_ancestor(self.event_of(target).self_parent(), potential_ancestor)
                || self.has_ancestor(self.event_of(target).other_parent(), potential_ancestor)))),
    {
        if self.contains(target) {
            self.lemma_index_of(target);
            let x = self.index_of(target);
            if !self.is_genesis_at(x) {
                self.lemma_position(self.sp(x));
                self.lemma_position(self.op(x));
            }
            if self.contains(potential_ancestor) {
                self.lemma_index_of(potential_ancestor);
            }
        }
    }

    /// No peer forks: no peer is marked as forking, and no two stored events
    /// have the same self parent. So an event that is an ancestor is seen:
    /// there is no fork that a see would have to reject.
    pub proof fn lemma_no_fork(&self)
        requires
            self.wf(),
        ensures
            forall|p: PeerId| #[trigger] self.peers().contains(p) ==> !self.forking(p),
            forall|a: Seq<u8>, b: Seq<u8>|
                #![trigger self.event_of(a), self.event_of(b)]
                self.contains(a) && self.contains(b) && a != b && !self.event_of(a).is_genesis()
                    && !self.event_of(b).is_genesis() ==> self.event_of(a).self_parent()
                    != self.event_of(b).self_parent(),
    {
        assert forall|a: Seq<u8>, b: Seq<u8>|
            #![trigger self.event_of(a), self.event_of(b)]
            self.contains(a) && self.contains(b) && a != b && !self.event_of(a).is_genesis()
                && !self.event_of(b).is_genesis() implies self.event_of(a).self_parent()
            != self.event_of(b).self_parent() by {
            self.lemma_index_of(a);
            self.lemma_index_of(b);
            let i = self.index_of(a);
            let j = self.index_of(b);
            assert(!self.is_genesis_at(i) && !self.is_genesis_at(j));
            if self.event_of(a).self_parent() == self.event_of(b).self_parent() {
                let p = self.sp(i);
                assert(self.sp(j) == p);
                let kids = self.entries@[p].event.spec_children().self_child;
                assert(kids.list().contains(a));
                assert(kids.list().contains(b));
                assert(!(kids is Forking));
            }
        }
    }

    /// Every peer of the graph has exactly one genesis, which the peer index
    /// names; its latest event is stored, is its own, and has no self child.
    pub proof fn lemma_peer_index(&self, p: PeerId)
        requires
            self.wf(),
            self.peers().contains(p),
        ensures
            self.contains(self.genesis_of(p)),
            self.event_of(self.genesis_of(p)).is_genesis(),
            self.event_of(self.genesis_of(p)).author() == p,
            forall|g: Seq<u8>|
                self.contains(g) && #[trigger] self.event_of(g).is_genesis() && self.event_of(
                    g,
                ).author() == p ==> g == self.genesis_of(p),
            self.contains(self.latest_of(p)),
            self.event_of(self.latest_of(p)).author() == p,
            self.children_of(self.latest_of(p)).self_child is NoChild,
    {
        let entry = self.peer_index@[p];
        assert(self.peer_index@.contains_key(p));
        self.lemma_position(entry.genesis_at as int);
        self.lemma_position(entry.latest_at as int);
        assert forall|g: Seq<u8>|
            self.contains(g) && #[trigger] self.event_of(g).is_genesis() && self.event_of(
                g,
            ).author() == p implies g == self.genesis_of(p) by {
            self.lemma_index_of(g);
            assert(self.is_genesis_at(self.index_of(g)));
        }
    }

    /// The author of every stored event is a peer of the graph, and the
    /// digest of the event is the Blake2b-512 digest of the canonical bytes
    /// of its fields.
    pub proof fn lemma_stored_event(&self, h: Seq<u8>)
        requires
            self.wf(),
            self.contains(h),
        ensures
            self.peers().contains(self.event_of(h).author()),
            self.event_of(h).hash() == h,
            h == event_hash(self.event_of(h).unsigned.fields),
    {
        self.lemma_index_of(h);
        assert(self.peer_index@.contains_key(self.author_at(self.index_of(h))));
    }

    /// The child pointers of a stored event name the stored events that
    /// have it as their self parent, and as their other parent.
    pub proof fn lemma_children(&self, h: Seq<u8>, child: Seq<u8>)
        requires
            self.wf(),
            self.contains(h),
        ensures
            self.children_of(h).self_child.list().contains(child) <==> self.contains(child)
                && !self.event_of(child).is_genesis() && self.event_of(child).self_parent() == h,
            self.children_of(h).other_children.contains(child) <==> self.contains(child)
                && !self.event_of(child).is_genesis() && self.event_of(child).other_parent() == h,
    {
        self.lemma_index_of(h);
        let i = self.index_of(h);
        if self.contains(child) {
            self.lemma_index_of(child);
            let j = self.index_of(child);
            if !self.is_genesis_at(j) {
                self.lemma_position(self.sp(j));
                self.lemma_position(self.op(j));
            }
        }
        if self.children_of(h).self_child.list().contains(child) {
            let j = choose|j: int|
                0 <= j < self.size() && !self.is_genesis_at(j) && self.sp(j) == i
                    && #[trigger] self.hash_at(j) == child;
            self.lemma_position(j);
        }
        if self.children_of(h).other_children.contains(child) {
            let j = choose|j: int|
                0 <= j < self.size() && !self.is_genesis_at(j) && self.op(j) == i
                    && #[trigger] self.hash_at(j) == child;
            self.lemma_position(j);
        }
    }

    /// The admission of an event leaves the ancestors of the events that
    /// were stored before as they were.
    pub proof fn lemma_admitted_ancestry(
        &self,
        before: &Graph,
        fields: FieldsView,
        a: Seq<u8>,
        b: Seq<u8>,
    )
        requires
            before.wf(),
            self.wf(),
            self.admitted(before, fields),
            before.contains(a),
        ensures
            self.has_ancestor(a, b) == before.has_ancestor(a, b),
        decreases before.index_of(a),
    {
        before.lemma_index_of(a);
        self.lemma_ancestor_unfold(a, b);
        before.lemma_ancestor_unfold(a, b);
        assert(self.contains(a));
        assert(self.event_of(a) == before.event_of(a));
        if a != b && !before.event_of(a).is_genesis() {
            before.lemma_parents_stored(a);
            let i = before.index_of(a);
            assert(!before.is_genesis_at(i));
            before.lemma_position(before.sp(i));
            before.lemma_position(before.op(i));
            self.lemma_admitted_ancestry(before, fields, before.event_of(a).self_parent(), b);
            self.lemma_admitted_ancestry(before, fields, before.event_of(a).other_parent(), b);
        }
    }
}

} // verus!
