//! Ancestry: the traversal of an event's ancestors, and the relations
//! "ancestor", "see" and "strongly see" computed with it.

use crate::event::{EventWrapper, PeerId};
use crate::graph::Graph;
use crate::hash;
use std::collections::HashSet;
use vstd::prelude::*;

verus! {

broadcast use vstd::std_specs::hash::group_hash_axioms;

/// Number of `false` entries of `flags`.
pub open spec fn count_false(flags: Seq<bool>) -> nat
    decreases flags.len(),
{
    if flags.len() == 0 {
        0
    } else {
        count_false(flags.drop_last()) + if flags.last() {
            0nat
        } else {
            1nat
        }
    }
}

/// Setting one `false` entry to `true` lowers the count of `false` entries
/// by one.
pub proof fn lemma_count_false_update(flags: Seq<bool>, i: int)
    requires
        0 <= i < flags.len(),
        !flags[i],
    ensures
        count_false(flags.update(i, true)) + 1 == count_false(flags),
    decreases flags.len(),
{
    let after = flags.update(i, true);
    if i == flags.len() - 1 {
        assert(after.drop_last() == flags.drop_last());
    } else {
        lemma_count_false_update(flags.drop_last(), i);
        assert(after.drop_last() == flags.drop_last().update(i, true));
    }
}

/// `i` is one of `list`.
pub open spec fn listed(list: Seq<usize>, i: int) -> bool {
    exists|k: int| 0 <= k < list.len() && #[trigger] list[k] == i
}

impl Graph {
    /// The positions of the event at `x` and of its self ancestors, the
    /// event first, up to the first one that `visited` marks.
    pub open(crate) spec fn chain(&self, x: int, visited: Seq<bool>) -> Seq<usize>
        decreases x,
    {
        if x < 0 || x >= self.size() || x >= visited.len() || visited[x] {
            Seq::empty()
        } else if self.is_genesis_at(x) || !(0 <= self.sp(x) < x) {
            seq![x as usize]
        } else {
            seq![x as usize] + self.chain(self.sp(x), visited)
        }
    }

    /// The positions of a chain are at most its start, and `visited` marks
    /// none of them.
    pub(crate) proof fn lemma_chain(&self, x: int, visited: Seq<bool>, k: int)
        requires
            0 <= k < self.chain(x, visited).len(),
        ensures
            0 <= self.chain(x, visited)[k] <= x,
            self.chain(x, visited)[k] < self.size(),
            self.chain(x, visited)[k] < visited.len(),
            !visited[self.chain(x, visited)[k] as int],
        decreases x,
    {
        if k > 0 {
            self.lemma_chain(self.sp(x), visited, k - 1);
            assert(self.chain(x, visited)[k] == self.chain(self.sp(x), visited)[k - 1]);
        } else {
            assert(self.entries@.len() == self.entries.len());
            assert(self.chain(x, visited)[0] == x);
        }
    }

    /// A chain does not depend on the marks above its start.
    pub(crate) proof fn lemma_chain_same(&self, x: int, a: Seq<bool>, b: Seq<bool>)
        requires
            a.len() == b.len(),
            forall|i: int| 0 <= i <= x && i < a.len() ==> a[i] == b[i],
        ensures
            self.chain(x, a) == self.chain(x, b),
        decreases x,
    {
        if !(x < 0 || x >= self.size() || x >= a.len() || a[x]) && !(self.is_genesis_at(x) || !(0
            <= self.sp(x) < x)) {
            self.lemma_chain_same(self.sp(x), a, b);
        }
    }

    /// Every stored event is its own ancestor.
    pub(crate) proof fn lemma_anc_reflexive(&self, x: int)
        requires
            0 <= x < self.size(),
        ensures
            self.anc(x, x),
    {
    }

    /// An ancestor of an ancestor is an ancestor.
    pub(crate) proof fn lemma_anc_transitive(&self, x: int, y: int, z: int)
        requires
            self.anc(x, y),
            self.anc(y, z),
        ensures
            self.anc(x, z),
        decreases x,
    {
        if x != y {
            if self.anc(self.sp(x), y) {
                self.lemma_anc_transitive(self.sp(x), y, z);
            } else {
                self.lemma_anc_transitive(self.op(x), y, z);
            }
        }
    }

    /// The parents of an ancestor are ancestors.
    pub(crate) proof fn lemma_anc_parents(&self, x: int, y: int)
        requires
            self.wf_store(),
            self.anc(x, y),
            !self.is_genesis_at(y),
        ensures
            self.anc(x, self.sp(y)),
            self.anc(x, self.op(y)),
    {
        self.lemma_anc_reflexive(self.sp(y));
        self.lemma_anc_reflexive(self.op(y));
        assert(self.anc(y, self.sp(y)));
        assert(self.anc(y, self.op(y)));
        self.lemma_anc_transitive(x, y, self.sp(y));
        self.lemma_anc_transitive(x, y, self.op(y));
    }
}

/// Traversal of the ancestors of one event, the event itself included. Each
/// ancestor is handed out once; the self ancestors of an event come before
/// what is reached through its other parent.
pub struct EventIter<'a> {
    pub(crate) graph: &'a Graph,
    pub(crate) node_list: Vec<usize>,
    pub(crate) visited_events: Vec<bool>,
    pub(crate) start: usize,
}

impl<'a> EventIter<'a> {
    /// The event at `i` was pushed at some time.
    pub open(crate) spec fn visited(&self, i: int) -> bool {
        0 <= i < self.visited_events@.len() && self.visited_events@[i]
    }

    /// The event at `i` waits to be handed out.
    pub open(crate) spec fn pending(&self, i: int) -> bool {
        exists|k: int| 0 <= k < self.node_list@.len() && #[trigger] self.node_list@[k] == i
    }

    /// The event at `i` was handed out.
    pub open(crate) spec fn done(&self, i: int) -> bool {
        self.visited(i) && !self.pending(i)
    }

    /// What holds of the traversal between any two steps, but that the
    /// other parents of the events handed out were visited.
    pub open(crate) spec fn steady(&self) -> bool {
        &&& self.graph.wf_store()
        &&& self.visited_events@.len() == self.graph.size()
        &&& self.start < self.graph.size()
        &&& self.node_list@.no_duplicates()
        &&& forall|k: int|
            0 <= k < self.node_list@.len() ==> self.visited(#[trigger] self.node_list@[k] as int)
        &&& forall|i: int| #[trigger] self.visited(i) ==> self.graph.anc(self.start as int, i)
        &&& forall|i: int|
            #[trigger] self.visited(i) && !self.graph.is_genesis_at(i) ==> self.visited(
                self.graph.sp(i),
            )
    }

    /// The invariant of the traversal.
    pub open(crate) spec fn inv(&self) -> bool {
        &&& self.steady()
        &&& self.visited(self.start as int)
        &&& forall|i: int|
            #[trigger] self.done(i) && !self.graph.is_genesis_at(i) ==> self.visited(
                self.graph.op(i),
            )
    }

    /// Upper bound on the number of events still to be handed out.
    pub open(crate) spec fn remaining(&self) -> nat {
        count_false(self.visited_events@) + self.node_list@.len()
    }

    /// Pushes `from` and its self ancestors, up to the first one that was
    /// visited before.
    pub(crate) fn push_self_ancestors(&mut self, from: usize)
        requires
            old(self).steady(),
            from < old(self).graph.size(),
            old(self).graph.anc(old(self).start as int, from as int),
        ensures
            final(self).steady(),
            final(self).graph == old(self).graph,
            final(self).start == old(self).start,
            final(self).visited(from as int),
            final(self).remaining() == old(self).remaining(),
            final(self).node_list@ == old(self).node_list@ + old(self).graph.chain(
                from as int,
                old(self).visited_events@,
            ),
            forall|i: int|
                #[trigger] final(self).visited(i) <==> old(self).visited(i) || listed(
                    old(self).graph.chain(from as int, old(self).visited_events@),
                    i,
                ),
            forall|i: int| old(self).visited(i) ==> final(self).visited(i),
            forall|i: int|
                old(self).visited(i) ==> (#[trigger] final(self).pending(i) <==> old(self).pending(i)),
            forall|i: int|
                #[trigger] final(self).visited(i) && !old(self).visited(i) ==> final(self).pending(i),
    {
        let ghost stack0 = self.node_list@;
        let ghost flags0 = self.visited_events@;
        let ghost whole = self.graph.chain(from as int, flags0);
        let mut cur = from;
        let mut more = !self.visited_events[from];
        while more
            invariant
                self.graph == old(self).graph,
                self.start == old(self).start,
                self.graph.wf_store(),
                self.visited_events@.len() == self.graph.size(),
                flags0.len() == self.graph.size(),
                self.start < self.graph.size(),
                cur < self.graph.size(),
                cur <= from,
                self.graph.anc(self.start as int, cur as int),
                more ==> !self.visited_events@[cur as int] && !flags0[cur as int],
                !more ==> self.visited(from as int),
                self.visited(from as int) || cur == from,
                forall|i: int| 0 <= i <= cur && more ==> self.visited_events@[i] == flags0[i],
                whole == self.graph.chain(from as int, flags0),
                self.node_list@.len() >= stack0.len(),
                self.node_list@.subrange(0, stack0.len() as int) == stack0,
                whole == self.node_list@.subrange(
                    stack0.len() as int,
                    self.node_list@.len() as int,
                ) + (if more {
                    self.graph.chain(cur as int, flags0)
                } else {
                    Seq::<usize>::empty()
                }),
                forall|i: int|
                    #[trigger] self.visited(i) <==> old(self).visited(i) || listed(
                        self.node_list@.subrange(stack0.len() as int, self.node_list@.len() as int),
                        i,
                    ),
                self.node_list@.no_duplicates(),
                forall|k: int|
                    0 <= k < self.node_list@.len() ==> self.visited(
                        #[trigger] self.node_list@[k] as int,
                    ),
                forall|i: int| #[trigger] self.visited(i) ==> self.graph.anc(self.start as int, i),
                forall|i: int|
                    #[trigger] self.visited(i) && !self.graph.is_genesis_at(i) ==> self.visited(
                        self.graph.sp(i),
                    ) || (more && self.graph.sp(i) == cur),
                self.remaining() == old(self).remaining(),
                forall|i: int| old(self).visited(i) ==> self.visited(i),
                forall|i: int|
                    old(self).visited(i) ==> (#[trigger] self.pending(i) <==> old(self).pending(i)),
                forall|i: int|
                    #[trigger] self.visited(i) && !old(self).visited(i) ==> self.pending(i),
            decreases count_false(self.visited_events@),
        {
            let ghost stack = self.node_list@;
            let ghost flags = self.visited_events@;
            let ghost prev = *self;
            let ghost pushed_before = stack.subrange(stack0.len() as int, stack.len() as int);
            proof {
                lemma_count_false_update(flags, cur as int);
                if !self.graph.is_genesis_at(cur as int) {
                    self.graph.lemma_anc_parents(self.start as int, cur as int);
                }
            }
            self.node_list.push(cur);
            self.visited_events[cur] = true;
            let ghost pushed = cur;
            proof {
                assert(self.node_list@ == stack.push(cur));
                assert(self.visited_events@ == flags.update(cur as int, true));
                assert(self.node_list@[stack.len() as int] == cur);
                assert forall|i: int| i != cur implies (self.pending(i) <==> exists|k: int|
                    0 <= k < stack.len() && #[trigger] stack[k] == i) by {
                    if self.pending(i) {
                        let k = choose|k: int|
                            0 <= k < self.node_list@.len() && #[trigger] self.node_list@[k] == i;
                        assert(stack[k] == i);
                    }
                    if exists|k: int| 0 <= k < stack.len() && #[trigger] stack[k] == i {
                        let k = choose|k: int| 0 <= k < stack.len() && #[trigger] stack[k] == i;
                        assert(self.node_list@[k] == i);
                    }
                }
                assert forall|i: int| #[trigger] self.visited(i) implies i == pushed || prev.visited(
                    i,
                ) by {}
                assert forall|i: int| #[trigger] prev.visited(i) implies self.visited(i) by {}
                assert forall|i: int| i != pushed implies (#[trigger] self.pending(i)
                    <==> prev.pending(i)) by {}
                assert(self.pending(pushed as int));
                assert(!prev.visited(pushed as int));
                assert(self.visited(pushed as int));
                assert(self.visited(from as int));
                let pushed_now = self.node_list@.subrange(
                    stack0.len() as int,
                    self.node_list@.len() as int,
                );
                assert(pushed_now =~= pushed_before.push(cur));
                assert(self.node_list@.subrange(0, stack0.len() as int) =~= stack0);
                assert forall|i: int|
                    #[trigger] self.visited(i) <==> old(self).visited(i) || listed(pushed_now, i) by {
                    if listed(pushed_now, i) {
                        let k = choose|k: int|
                            0 <= k < pushed_now.len() && #[trigger] pushed_now[k] == i;
                        if k < pushed_before.len() {
                            assert(pushed_before[k] == i);
                            assert(listed(pushed_before, i));
                            assert(prev.visited(i));
                        }
                    }
                    if prev.visited(i) && !old(self).visited(i) {
                        assert(listed(pushed_before, i));
                        let k = choose|k: int|
                            0 <= k < pushed_before.len() && #[trigger] pushed_before[k] == i;
                        assert(pushed_now[k] == i);
                    }
                    if i == pushed {
                        assert(pushed_now[pushed_before.len() as int] == i);
                    }
                }
            }
            match self.graph.entries[cur].parents {
                Some((self_parent, _)) => {
                    proof {
                        assert(self_parent == self.graph.sp(pushed as int));
                        assert(self.graph.chain(pushed as int, flags0) == seq![pushed]
                            + self.graph.chain(self_parent as int, flags0));
                        assert(self.visited_events@[self_parent as int]
                            == flags0[self_parent as int]);
                        if flags0[self_parent as int] {
                            assert(self.graph.chain(self_parent as int, flags0)
                                =~= Seq::<usize>::empty());
                        }
                    }
                    cur = self_parent;
                    more = !self.visited_events[self_parent];
                },
                None => {
                    proof {
                        assert(self.graph.is_genesis_at(pushed as int));
                        assert(self.graph.chain(pushed as int, flags0) == seq![pushed]);
                    }
                    more = false;
                },
            }
            proof {
                let pushed_now = self.node_list@.subrange(
                    stack0.len() as int,
                    self.node_list@.len() as int,
                );
                assert(whole =~= pushed_now + (if more {
                    self.graph.chain(cur as int, flags0)
                } else {
                    Seq::<usize>::empty()
                }));
            }
        }
        proof {
            let pushed_now = self.node_list@.subrange(
                stack0.len() as int,
                self.node_list@.len() as int,
            );
            assert(whole =~= pushed_now);
            assert(self.node_list@ =~= stack0 + whole);
        }
    }

    /// Starts a traversal at the event stored at `start`.
    pub(crate) fn from_position(graph: &'a Graph, start: usize) -> (iter: EventIter<'a>)
        requires
            graph.wf_store(),
            start < graph.size(),
        ensures
            iter.inv(),
            iter.graph == graph,
            iter.start == start,
            forall|i: int| !iter.done(i),
            iter.node_list@ == graph.chain(start as int, Seq::new(graph.size() as nat, |i: int| false)),
            forall|i: int| #[trigger] iter.visited(i) <==> listed(iter.node_list@, i),
    {
        let mut visited_events: Vec<bool> = Vec::new();
        let mut i: usize = 0;
        while i < graph.entries.len()
            invariant
                i <= graph.entries.len(),
                visited_events@.len() == i,
                forall|k: int| 0 <= k < i ==> !visited_events@[k],
            decreases graph.entries.len() - i,
        {
            visited_events.push(false);
            i = i + 1;
        }
        let mut iter = EventIter { graph, node_list: Vec::new(), visited_events, start };
        proof {
            graph.lemma_anc_reflexive(start as int);
            assert(iter.visited_events@ =~= Seq::new(graph.size() as nat, |i: int| false));
        }
        let ghost fresh = iter;
        iter.push_self_ancestors(start);
        proof {
            assert(iter.node_list@ =~= graph.chain(
                start as int,
                Seq::new(graph.size() as nat, |i: int| false),
            ));
            assert forall|i: int| #[trigger] iter.visited(i) <==> listed(iter.node_list@, i) by {
                assert(!fresh.visited(i));
            }
        }
        iter
    }

    /// Hands out the position of the next ancestor, if one is left.
    pub(crate) fn next_position(&mut self) -> (next: Option<usize>)
        requires
            old(self).inv(),
        ensures
            final(self).inv(),
            final(self).graph == old(self).graph,
            final(self).start == old(self).start,
            match next {
                Some(e) => {
                    &&& old(self).node_list@.len() > 0
                    &&& e == old(self).node_list@.last()
                    &&& final(self).node_list@ == old(self).node_list@.drop_last() + (
                    if final(self).graph.is_genesis_at(e as int) {
                        Seq::<usize>::empty()
                    } else {
                        final(self).graph.chain(
                            final(self).graph.op(e as int),
                            old(self).visited_events@,
                        )
                    })
                    &&& forall|i: int|
                        #[trigger] final(self).visited(i) <==> old(self).visited(i) || listed(
                            final(self).node_list@.subrange(
                                old(self).node_list@.len() - 1,
                                final(self).node_list@.len() as int,
                            ),
                            i,
                        )
                    &&& e < final(self).graph.size()
                    &&& final(self).graph.anc(final(self).start as int, e as int)
                    &&& !old(self).done(e as int)
                    &&& final(self).done(e as int)
                    &&& forall|i: int| i != e ==> (final(self).done(i) <==> old(self).done(i))
                    &&& final(self).remaining() + 1 == old(self).remaining()
                },
                None => {
                    &&& old(self).node_list@.len() == 0
                    &&& final(self).node_list@ == old(self).node_list@
                    &&& final(self).visited_events@ == old(self).visited_events@
                    &&& forall|i: int| final(self).done(i) <==> old(self).done(i)
                    &&& forall|i: int|
                        final(self).done(i) <==> final(self).graph.anc(final(self).start as int, i)
                },
            },
    {
        let ghost stack = self.node_list@;
        let popped = self.node_list.pop();
        match popped {
            None => {
                proof {
                    assert(self.node_list@ == stack);
                    assert(stack.len() == 0);
                    assert forall|i: int| #[trigger] self.visited(i) <==> old(self).visited(i) by {}
                    assert forall|i: int| #[trigger] self.pending(i) <==> old(self).pending(i) by {}
                    assert forall|i: int| #[trigger] self.done(i) <==> old(self).done(i) by {}
                    assert(self.inv());
                    assert forall|i: int| self.graph.anc(self.start as int, i) implies self.done(
                        i,
                    ) by {
                        self.lemma_closed(self.start as int, i);
                    }
                }
                None
            },
            Some(event) => {
                proof {
                    assert(stack[stack.len() - 1] == event);
                    assert(self.node_list@ == stack.drop_last());
                    assert(!self.pending(event as int)) by {
                        if self.pending(event as int) {
                            let k = choose|k: int|
                                0 <= k < self.node_list@.len() && #[trigger] self.node_list@[k]
                                    == event;
                            assert(stack[k] == event);
                        }
                    }
                    assert forall|i: int| i != event implies (self.pending(i) <==> old(self).pending(i)) by {
                        if old(self).pending(i) {
                            let k = choose|k: int| 0 <= k < stack.len() && #[trigger] stack[k] == i;
                            assert(self.node_list@[k] == i);
                        }
                        if self.pending(i) {
                            let k = choose|k: int|
                                0 <= k < self.node_list@.len() && #[trigger] self.node_list@[k] == i;
                            assert(stack[k] == i);
                        }
                    }
                    assert(self.node_list@.no_duplicates());
                    assert forall|i: int| #[trigger] self.visited(i) <==> old(self).visited(i) by {}
                    assert forall|k: int| 0 <= k < self.node_list@.len() implies self.visited(
                        #[trigger] self.node_list@[k] as int,
                    ) by {
                        assert(stack[k] == self.node_list@[k]);
                    }
                    assert(self.steady());
                }
                let ghost mid = *self;
                match self.graph.entries[event].parents {
                    Some((_, other_parent)) => {
                        proof {
                            self.graph.lemma_anc_parents(self.start as int, event as int);
                        }
                        self.push_self_ancestors(other_parent);
                    },
                    None => {
                        proof {
                            assert(self.node_list@ =~= stack.drop_last() + Seq::<usize>::empty());
                        }
                    },
                }
                proof {
                    let added = self.node_list@.subrange(
                        stack.len() - 1,
                        self.node_list@.len() as int,
                    );
                    if !self.graph.is_genesis_at(event as int) {
                        assert(added =~= self.graph.chain(
                            self.graph.op(event as int),
                            old(self).visited_events@,
                        ));
                    } else {
                        assert(added =~= Seq::<usize>::empty());
                    }
                    assert forall|i: int|
                        #[trigger] self.visited(i) <==> old(self).visited(i) || listed(added, i) by {
                        assert(mid.visited(i) <==> old(self).visited(i));
                    }
                }
                proof {
                    assert forall|i: int| i != event implies (self.done(i) <==> old(self).done(
                        i,
                    )) by {
                        if mid.visited(i) {
                            assert(self.pending(i) <==> mid.pending(i));
                        }
                    }
                }
                Some(event)
            },
        }
    }

    /// When nothing is left to hand out, every ancestor was handed out.
    proof fn lemma_closed(&self, x: int, y: int)
        requires
            self.inv(),
            self.node_list@.len() == 0,
            self.visited(x),
            self.graph.anc(x, y),
        ensures
            self.done(y),
        decreases x,
    {
        assert(self.done(x));
        if x != y {
            if self.graph.anc(self.graph.sp(x), y) {
                self.lemma_closed(self.graph.sp(x), y);
            } else {
                self.lemma_closed(self.graph.op(x), y);
            }
        }
    }
}

/// The threshold of a supermajority among `n` peers: `2n/3`, rounded down.
/// A count is a supermajority if it is strictly greater.
pub fn supermajority_threshold(n: usize) -> (threshold: usize)
    ensures
        threshold == (2 * n) / 3,
{
    (n / 3) * 2 + ((n % 3) * 2) / 3
}

impl Graph {
    /// Whether the event at `y` is an ancestor of the event at `x`.
    pub(crate) fn ancestor_at(&self, x: usize, y: usize) -> (found: bool)
        requires
            self.wf_store(),
            x < self.size(),
            y < self.size(),
        ensures
            found == self.anc(x as int, y as int),
    {
        let mut iter = EventIter::from_position(self, x);
        loop
            invariant
                iter.inv(),
                iter.graph == self,
                iter.start == x,
                !iter.done(y as int),
            decreases iter.remaining(),
        {
            match iter.next_position() {
                None => {
                    return false;
                },
                Some(event) => {
                    if event == y {
                        return true;
                    }
                },
            }
        }
    }

    /// Whether more than `2n/3` peers wrote an ancestor of the event at `x`
    /// that has the event at `y` as an ancestor.
    pub(crate) fn strongly_see_at(&self, x: usize, y: usize) -> (strongly: bool)
        requires
            self.wf_store(),
            self.peer_index@.dom().finite(),
            x < self.size(),
            y < self.size(),
        ensures
            strongly == self.strongly_sees_at(x as int, y as int),
    {
        let mut authors_seen: HashSet<PeerId> = HashSet::new();
        let mut iter = EventIter::from_position(self, x);
        loop
            invariant_except_break
                iter.inv(),
                iter.graph == self,
                iter.start == x,
                y < self.size(),
                forall|p: PeerId|
                    authors_seen@.contains(p) <==> exists|a: int|
                        #[trigger] iter.done(a) && self.anc(a, y as int) && self.author_at(a) == p,
            ensures
                authors_seen@ == self.seers_at(x as int, y as int),
            decreases iter.remaining(),
        {
            let ghost before = iter;
            let ghost seen = authors_seen@;
            match iter.next_position() {
                None => {
                    proof {
                        assert forall|p: PeerId|
                            authors_seen@.contains(p) <==> self.seers_at(
                                x as int,
                                y as int,
                            ).contains(p) by {
                            if authors_seen@.contains(p) {
                                let a = choose|a: int|
                                    #[trigger] iter.done(a) && self.anc(a, y as int)
                                        && self.author_at(a) == p;
                                assert(self.anc(x as int, a));
                            }
                            if self.seers_at(x as int, y as int).contains(p) {
                                let a = choose|a: int|
                                    #[trigger] self.anc(x as int, a) && self.anc(a, y as int)
                                        && self.author_at(a) == p;
                                assert(iter.done(a));
                            }
                        }
                        assert(authors_seen@ =~= self.seers_at(x as int, y as int));
                    }
                    break ;
                },
                Some(event) => {
                    let sees = self.ancestor_at(event, y);
                    if sees {
                        let author = *self.entries[event].event.author();
                        authors_seen.insert(author);
                    }
                    proof {
                        assert forall|p: PeerId|
                            authors_seen@.contains(p) <==> exists|a: int|
                                #[trigger] iter.done(a) && self.anc(a, y as int) && self.author_at(
                                    a,
                                ) == p by {
                            if seen.contains(p) {
                                let a = choose|a: int|
                                    #[trigger] before.done(a) && self.anc(a, y as int)
                                        && self.author_at(a) == p;
                                assert(iter.done(a));
                            }
                            if sees && p == self.author_at(event as int) {
                                assert(iter.done(event as int));
                            }
                            if exists|a: int|
                                #[trigger] iter.done(a) && self.anc(a, y as int) && self.author_at(
                                    a,
                                ) == p {
                                let a = choose|a: int|
                                    #[trigger] iter.done(a) && self.anc(a, y as int)
                                        && self.author_at(a) == p;
                                if a != event {
                                    assert(before.done(a));
                                }
                            }
                        }
                    }
                },
            }
        }
        let n = self.peer_index.len();
        authors_seen.len() > supermajority_threshold(n)
    }

    /// Ancestry by digest is ancestry by position.
    pub(crate) proof fn lemma_has_ancestor(&self, x: int, y: int)
        requires
            self.wf_store(),
            0 <= x < self.size(),
            0 <= y < self.size(),
        ensures
            self.has_ancestor(self.hash_at(x), self.hash_at(y)) == self.anc(x, y),
    {
        self.lemma_position(x);
        self.lemma_position(y);
    }

    /// The peers that see by digest are those that see by position.
    pub(crate) proof fn lemma_seeing_peers(&self, x: int, y: int)
        requires
            self.wf_store(),
            0 <= x < self.size(),
            0 <= y < self.size(),
        ensures
            self.seeing_peers(self.hash_at(x), self.hash_at(y)) == self.seers_at(x, y),
    {
        let by_digest = self.seeing_peers(self.hash_at(x), self.hash_at(y));
        let by_position = self.seers_at(x, y);
        assert forall|p: PeerId| by_digest.contains(p) <==> by_position.contains(p) by {
            if by_digest.contains(p) {
                let h = choose|h: Seq<u8>|
                    #![trigger self.has_ancestor(self.hash_at(x), h)]
                    self.has_ancestor(self.hash_at(x), h) && self.has_ancestor(h, self.hash_at(y))
                        && self.event_of(h).author() == p;
                self.lemma_index_of(h);
                let a = self.index_of(h);
                self.lemma_has_ancestor(x, a);
                self.lemma_has_ancestor(a, y);
                assert(self.anc(x, a) && self.anc(a, y) && self.author_at(a) == p);
            }
            if by_position.contains(p) {
                let a = choose|a: int|
                    #[trigger] self.anc(x, a) && self.anc(a, y) && self.author_at(a) == p;
                self.lemma_has_ancestor(x, a);
                self.lemma_has_ancestor(a, y);
                self.lemma_position(a);
                assert(self.has_ancestor(self.hash_at(x), self.hash_at(a)));
            }
        }
        assert(by_digest =~= by_position);
    }

    /// Whether `potential_ancestor` is `target` or can be reached from it by
    /// parent links.
    pub fn ancestor(&self, target: &hash::Hash, potential_ancestor: &hash::Hash) -> (found: bool)
        requires
            self.wf(),
            self.contains(target@),
            self.contains(potential_ancestor@),
        ensures
            found == self.has_ancestor(target@, potential_ancestor@),
    {
        let x = self.position(target).unwrap();
        let y = self.position(potential_ancestor).unwrap();
        proof {
            self.lemma_index_of(target@);
            self.lemma_index_of(potential_ancestor@);
            self.lemma_has_ancestor(x as int, y as int);
        }
        self.ancestor_at(x, y)
    }

    /// Whether `observer` sees `target`: `target` is an ancestor of
    /// `observer`. A see must not rest on a fork of the author of `target`;
    /// a graph of this crate holds no fork, so nothing is left to reject.
    pub fn see(&self, observer: &hash::Hash, target: &hash::Hash) -> (seen: bool)
        requires
            self.wf(),
            self.contains(observer@),
            self.contains(target@),
        ensures
            seen == self.has_ancestor(observer@, target@),
    {
        self.ancestor(observer, target)
    }

    /// Whether `observer` strongly sees `target`: more than `2n/3` of the `n`
    /// peers wrote an event that `observer` has as an ancestor and that sees
    /// `target`.
    pub fn strongly_see(&self, observer: &hash::Hash, target: &hash::Hash) -> (strongly: bool)
        requires
            self.wf(),
            self.contains(observer@),
            self.contains(target@),
        ensures
            strongly == self.strongly_sees(observer@, target@),
    {
        let x = self.position(observer).unwrap();
        let y = self.position(target).unwrap();
        proof {
            self.lemma_index_of(observer@);
            self.lemma_index_of(target@);
            self.lemma_seeing_peers(x as int, y as int);
        }
        self.strongly_see_at(x, y)
    }

    /// The traversal of the ancestors of the event with digest `event_hash`,
    /// or `None` if the store does not hold it.
    pub fn iter<'a>(&'a self, event_hash: &hash::Hash) -> (iter: Option<EventIter<'a>>)
        requires
            self.wf(),
        ensures
            iter is Some <==> self.contains(event_hash@),
            iter matches Some(it) ==> it.valid() && it.graph() == self && it.origin() == event_hash@
                && it.seen() == Set::<Seq<u8>>::empty() && it.upcoming() == self.self_chain(
                event_hash@,
                Set::empty(),
            ) && it.reached() == it.upcoming().to_set(),
    {
        match self.position(event_hash) {
            None => None,
            Some(start) => {
                let iter = EventIter::from_position(self, start);
                proof {
                    self.lemma_index_of(event_hash@);
                    assert(iter.seen() =~= Set::<Seq<u8>>::empty());
                    iter.lemma_fresh();
                }
                Some(iter)
            },
        }
    }
}

impl Graph {
    /// For each position of the store, whether `visited` holds the digest
    /// of the event there.
    pub open(crate) spec fn marks(&self, visited: Set<Seq<u8>>) -> Seq<bool> {
        Seq::new(self.size() as nat, |i: int| visited.contains(self.hash_at(i)))
    }

    /// The digests of the event `h` and of its self ancestors, `h` first,
    /// up to the first one that `visited` holds.
    pub open(crate) spec fn self_chain(&self, h: Seq<u8>, visited: Set<Seq<u8>>) -> Seq<Seq<u8>> {
        if self.contains(h) {
            self.hashes_at(self.chain(self.index_of(h), self.marks(visited)))
        } else {
            Seq::empty()
        }
    }

    /// A chain of digests is empty if its start is visited or not stored,
    /// and else its start followed by the chain of the self parent.
    pub proof fn lemma_self_chain(&self, h: Seq<u8>, visited: Set<Seq<u8>>)
        requires
            self.wf(),
        ensures
            self.self_chain(h, visited) == (if !self.contains(h) || visited.contains(h) {
                Seq::<Seq<u8>>::empty()
            } else if self.event_of(h).is_genesis() {
                seq![h]
            } else {
                seq![h] + self.self_chain(self.event_of(h).self_parent(), visited)
            }),
    {
        if self.contains(h) {
            self.lemma_index_of(h);
            let x = self.index_of(h);
            let marks = self.marks(visited);
            assert(self.entries@.len() == self.entries.len());
            if visited.contains(h) {
                assert(self.hashes_at(self.chain(x, marks)) =~= Seq::<Seq<u8>>::empty());
            } else if self.is_genesis_at(x) {
                assert(self.hashes_at(self.chain(x, marks)) =~= seq![h]);
            } else {
                self.lemma_position(self.sp(x));
                let rest = self.chain(self.sp(x), marks);
                assert(self.chain(x, marks) == seq![x as usize] + rest);
                assert(self.hashes_at(seq![x as usize] + rest) =~= seq![h] + self.hashes_at(rest));
            }
        }
    }
}

impl<'a> EventIter<'a> {
    /// The invariant of the traversal. Every traversal handed out by this
    /// crate satisfies it.
    pub open(crate) spec fn valid(&self) -> bool {
        self.inv() && self.graph.wf()
    }

    /// The graph that is traversed.
    pub open(crate) spec fn graph(&self) -> &'a Graph {
        self.graph
    }

    /// Digest of the event whose ancestors are traversed.
    pub open(crate) spec fn origin(&self) -> Seq<u8> {
        self.graph.hash_at(self.start as int)
    }

    /// Digests of the events handed out so far.
    pub open(crate) spec fn seen(&self) -> Set<Seq<u8>> {
        Set::new(
            |h: Seq<u8>| exists|i: int| #[trigger] self.done(i) && self.graph.hash_at(i) == h,
        )
    }

    /// Upper bound on the number of events still to come.
    pub open(crate) spec fn left(&self) -> nat {
        self.remaining()
    }

    /// Digests of the events that wait to be handed out; the last one comes
    /// next.
    pub open(crate) spec fn upcoming(&self) -> Seq<Seq<u8>> {
        self.graph.hashes_at(self.node_list@)
    }

    /// Digests of the events that were reached: those handed out and those
    /// that wait.
    pub open(crate) spec fn reached(&self) -> Set<Seq<u8>> {
        Set::new(
            |h: Seq<u8>| exists|i: int| #[trigger] self.visited(i) && self.graph.hash_at(i) == h,
        )
    }

    /// The marks of what was reached are the marks that the traversal
    /// keeps.
    proof fn lemma_marks(&self)
        requires
            self.inv(),
        ensures
            self.graph.marks(self.reached()) == self.visited_events@,
    {
        let marks = self.graph.marks(self.reached());
        assert forall|i: int| 0 <= i < marks.len() implies marks[i] == self.visited_events@[i] by {
            if marks[i] {
                let j = choose|j: int|
                    #[trigger] self.visited(j) && self.graph.hash_at(j) == self.graph.hash_at(i);
                assert(j == i);
            }
            if self.visited_events@[i] {
                assert(self.visited(i));
            }
        }
        assert(marks =~= self.visited_events@);
    }

    /// What a step of the traversal does to the digests that wait and to
    /// those that were reached.
    proof fn lemma_step(&self, before: &EventIter<'a>, at: int)
        requires
            before.inv(),
            self.inv(),
            self.graph == before.graph,
            before.graph.wf(),
            before.node_list@.len() > 0,
            at == before.node_list@.last(),
            self.node_list@ == before.node_list@.drop_last() + (if self.graph.is_genesis_at(at) {
                Seq::<usize>::empty()
            } else {
                self.graph.chain(self.graph.op(at), before.visited_events@)
            }),
            forall|i: int|
                #[trigger] self.visited(i) <==> before.visited(i) || listed(
                    self.node_list@.subrange(
                        before.node_list@.len() - 1,
                        self.node_list@.len() as int,
                    ),
                    i,
                ),
        ensures
            self.graph.hash_at(at) == before.upcoming().last(),
            self.upcoming() == before.upcoming().drop_last() + (if self.graph.event_at(
                at,
            ).is_genesis() {
                Seq::<Seq<u8>>::empty()
            } else {
                self.graph.self_chain(self.graph.event_at(at).other_parent(), before.reached())
            }),
            self.reached() == before.reached().union(
                (if self.graph.event_at(at).is_genesis() {
                    Seq::<Seq<u8>>::empty()
                } else {
                    self.graph.self_chain(self.graph.event_at(at).other_parent(), before.reached())
                }).to_set(),
            ),
    {
        before.lemma_marks();
        let graph = self.graph;
        assert(at < graph.size());
        let added = self.node_list@.subrange(
            before.node_list@.len() - 1,
            self.node_list@.len() as int,
        );
        let chain = if graph.event_at(at).is_genesis() {
            Seq::<Seq<u8>>::empty()
        } else {
            graph.self_chain(graph.event_at(at).other_parent(), before.reached())
        };
        if !graph.is_genesis_at(at) {
            graph.lemma_position(graph.op(at));
            assert(added =~= graph.chain(graph.op(at), before.visited_events@));
        } else {
            assert(added =~= Seq::<usize>::empty());
        }
        assert(graph.hashes_at(added) =~= chain);
        assert(self.upcoming() =~= before.upcoming().drop_last() + chain);
        assert forall|h: Seq<u8>| self.reached().contains(h) <==> before.reached().union(
            chain.to_set(),
        ).contains(h) by {
            if self.reached().contains(h) {
                let i = choose|i: int| #[trigger] self.visited(i) && graph.hash_at(i) == h;
                if !before.visited(i) {
                    let k = choose|k: int| 0 <= k < added.len() && #[trigger] added[k] == i;
                    assert(chain[k] == h);
                }
            }
            if before.reached().contains(h) {
                let i = choose|i: int| #[trigger] before.visited(i) && graph.hash_at(i) == h;
                assert(self.visited(i));
            }
            if chain.to_set().contains(h) {
                let k = choose|k: int| 0 <= k < chain.len() && chain[k] == h;
                assert(listed(added, added[k] as int));
                assert(self.visited(added[k] as int));
            }
        }
        assert(self.reached() =~= before.reached().union(chain.to_set()));
    }

    /// Where a fresh traversal stands.
    proof fn lemma_fresh(&self)
        requires
            self.inv(),
            self.graph.wf(),
            self.node_list@ == self.graph.chain(
                self.start as int,
                Seq::new(self.graph.size() as nat, |i: int| false),
            ),
            forall|i: int| #[trigger] self.visited(i) <==> listed(self.node_list@, i),
        ensures
            self.upcoming() == self.graph.self_chain(self.origin(), Set::empty()),
            self.reached() == self.upcoming().to_set(),
    {
        let graph = self.graph;
        graph.lemma_position(self.start as int);
        assert(graph.marks(Set::empty()) =~= Seq::new(graph.size() as nat, |i: int| false));
        let waiting = self.upcoming();
        assert forall|h: Seq<u8>| self.reached().contains(h) <==> waiting.to_set().contains(h) by {
            if self.reached().contains(h) {
                let i = choose|i: int| #[trigger] self.visited(i) && graph.hash_at(i) == h;
                let k = choose|k: int|
                    0 <= k < self.node_list@.len() && #[trigger] self.node_list@[k] == i;
                assert(waiting[k] == h);
            }
            if waiting.to_set().contains(h) {
                let k = choose|k: int| 0 <= k < waiting.len() && waiting[k] == h;
                assert(listed(self.node_list@, self.node_list@[k] as int));
                assert(self.visited(self.node_list@[k] as int));
            }
        }
        assert(self.reached() =~= waiting.to_set());
    }

    /// Starts the traversal of the ancestors of the event with digest
    /// `ancestors_of`.
    pub fn new(graph: &'a Graph, ancestors_of: &hash::Hash) -> (iter: EventIter<'a>)
        requires
            graph.wf(),
            graph.contains(ancestors_of@),
        ensures
            iter.valid(),
            iter.graph() == graph,
            iter.origin() == ancestors_of@,
            iter.seen() == Set::<Seq<u8>>::empty(),
            iter.upcoming() == graph.self_chain(ancestors_of@, Set::empty()),
            iter.reached() == iter.upcoming().to_set(),
    {
        let start = graph.position(ancestors_of).unwrap();
        let iter = EventIter::from_position(graph, start);
        proof {
            graph.lemma_index_of(ancestors_of@);
            assert(iter.seen() =~= Set::<Seq<u8>>::empty());
            iter.lemma_fresh();
        }
        iter
    }

    /// Hands out the next ancestor: an ancestor of the origin that was not
    /// handed out before. `None` comes when, and only when, every ancestor
    /// was handed out.
    pub fn next(&mut self) -> (next: Option<&'a EventWrapper>)
        requires
            old(self).valid(),
        ensures
            final(self).valid(),
            final(self).graph() == old(self).graph(),
            final(self).origin() == old(self).origin(),
            match next {
                Some(event) => {
                    &&& old(self).upcoming().len() > 0
                    &&& event.event().hash() == old(self).upcoming().last()
                    &&& final(self).upcoming() == old(self).upcoming().drop_last() + (
                    if event.event().is_genesis() {
                        Seq::<Seq<u8>>::empty()
                    } else {
                        final(self).graph().self_chain(
                            event.event().other_parent(),
                            old(self).reached(),
                        )
                    })
                    &&& final(self).reached() == old(self).reached().union(
                        (if event.event().is_genesis() {
                            Seq::<Seq<u8>>::empty()
                        } else {
                            final(self).graph().self_chain(
                                event.event().other_parent(),
                                old(self).reached(),
                            )
                        }).to_set(),
                    )
                    &&& final(self).graph().has_ancestor(final(self).origin(), event.event().hash())
                    &&& !old(self).seen().contains(event.event().hash())
                    &&& final(self).seen() == old(self).seen().insert(event.event().hash())
                    &&& final(self).left() < old(self).left()
                    &&& event.event() == final(self).graph().event_of(event.event().hash())
                },
                None => {
                    &&& old(self).upcoming().len() == 0
                    &&& final(self).upcoming() == old(self).upcoming()
                    &&& final(self).reached() == old(self).reached()
                    &&& final(self).seen() == old(self).seen()
                    &&& forall|h: Seq<u8>|
                        final(self).seen().contains(h) <==> final(self).graph().has_ancestor(
                            final(self).origin(),
                            h,
                        )
                },
            },
    {
        let ghost before = *self;
        match self.next_position() {
            None => {
                proof {
                    assert(self.seen() =~= before.seen());
                    assert forall|h: Seq<u8>|
                        self.reached().contains(h) <==> before.reached().contains(h) by {
                        if self.reached().contains(h) {
                            let i = choose|i: int|
                                #[trigger] self.visited(i) && self.graph.hash_at(i) == h;
                            assert(before.visited(i));
                        }
                        if before.reached().contains(h) {
                            let i = choose|i: int|
                                #[trigger] before.visited(i) && self.graph.hash_at(i) == h;
                            assert(self.visited(i));
                        }
                    }
                    assert(self.reached() =~= before.reached());
                    assert forall|h: Seq<u8>|
                        self.seen().contains(h) <==> self.graph.has_ancestor(self.origin(), h) by {
                        if self.seen().contains(h) {
                            let i = choose|i: int| #[trigger] self.done(i) && self.graph.hash_at(i) == h;
                            self.graph.lemma_has_ancestor(self.start as int, i);
                        }
                        if self.graph.has_ancestor(self.origin(), h) {
                            self.graph.lemma_index_of(h);
                            self.graph.lemma_position(self.start as int);
                            assert(self.done(self.graph.index_of(h)));
                        }
                    }
                }
                None
            },
            Some(at) => {
                proof {
                    self.lemma_step(&before, at as int);
                    let h = self.graph.hash_at(at as int);
                    self.graph.lemma_has_ancestor(self.start as int, at as int);
                    self.graph.lemma_position(at as int);
                    assert(!before.seen().contains(h)) by {
                        if before.seen().contains(h) {
                            let i = choose|i: int| #[trigger] before.done(i) && self.graph.hash_at(i) == h;
                            assert(before.graph.anc(before.start as int, i));
                            self.graph.lemma_position(i);
                        }
                    }
                    assert forall|g: Seq<u8>|
                        self.seen().contains(g) <==> before.seen().insert(h).contains(g) by {
                        if self.seen().contains(g) {
                            let i = choose|i: int| #[trigger] self.done(i) && self.graph.hash_at(i) == g;
                            if i != at {
                                assert(before.done(i));
                            }
                        }
                        if before.seen().contains(g) {
                            let i = choose|i: int| #[trigger] before.done(i) && self.graph.hash_at(i) == g;
                            assert(self.done(i));
                        }
                        if g == h {
                            assert(self.done(at as int));
                        }
                    }
                    assert(self.seen() =~= before.seen().insert(h));
                }
                Some(&self.graph.entries[at].event)
            },
        }
    }
}

} // verus!
