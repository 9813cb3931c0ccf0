//! Sync jobs: the events that a peer has to be sent to catch up with the
//! local graph, in an order in which every parent comes before its children.

use crate::ancestry::{count_false, lemma_count_false_update, listed};
use crate::event::{SignedEvent, SignedView};
use crate::graph::Graph;
use crate::hash;
use std::collections::VecDeque;
use vstd::prelude::*;

verus! {

/// The events to send to a peer, oldest first.
#[derive(Debug)]
pub struct Jobs {
    inner: Vec<SignedEvent>,
}

/// Why no jobs could be generated.
#[derive(Clone, Copy, Debug)]
pub enum Error {
    /// The provided tip is unknown in this state.
    IncorrectTip(hash::Hash),
    /// The event could not be found.
    UnknownEvent(hash::Hash),
}

impl View for Jobs {
    type V = Seq<SignedView>;

    closed spec fn view(&self) -> Seq<SignedView> {
        Seq::new(self.inner@.len(), |k: int| self.inner@[k]@)
    }
}

/// The digests of a list of events.
pub open spec fn digests_of(events: Seq<SignedView>) -> Seq<Seq<u8>> {
    Seq::new(events.len(), |k: int| events[k].hash())
}

/// Every event of the list stands after each of its parents that the list
/// holds.
pub open spec fn parents_first(events: Seq<SignedView>) -> bool {
    forall|a: int, b: int|
        #![trigger events[a], events[b]]
        0 <= a < events.len() && 0 <= b < events.len() && !events[a].is_genesis() && (
        events[a].self_parent() == events[b].hash() || events[a].other_parent()
            == events[b].hash()) ==> b < a
}

/// The peer, as `peer_knows_event` answers for it, knows the event with
/// digest `digest`.
pub open spec fn known<F: Fn(&hash::Hash) -> bool>(peer_knows_event: &F, digest: Seq<u8>) -> bool {
    exists|h: hash::Hash| h@ == digest && call_ensures(*peer_knows_event, (&h,), true)
}

/// `peer_knows_event` can be asked about every digest, and its answer
/// depends on the bytes of the digest alone.
pub open spec fn answers<F: Fn(&hash::Hash) -> bool>(peer_knows_event: &F) -> bool {
    &&& forall|h: &hash::Hash| call_requires(*peer_knows_event, (h,))
    &&& forall|a: &hash::Hash, b: &hash::Hash, x: bool, y: bool|
        a@ == b@ && call_ensures(*peer_knows_event, (a,), x) && call_ensures(
            *peer_knows_event,
            (b,),
            y,
        ) ==> x == y
}

/// `get_event` can be asked about every digest, and what it finds is the
/// event that `graph` holds under that digest.
pub open spec fn resolves<G: Fn(&hash::Hash) -> Option<SignedEvent>>(
    get_event: &G,
    graph: &Graph,
) -> bool {
    &&& forall|h: &hash::Hash| call_requires(*get_event, (h,))
    &&& forall|h: &hash::Hash, found: Option<SignedEvent>|
        call_ensures(*get_event, (h,), found) && found is Some ==> graph.contains(h@)
            && found.unwrap()@ == graph.event_of(h@)
}

/// Asks whether the peer knows the event with digest `h`.
fn ask<F: Fn(&hash::Hash) -> bool>(peer_knows_event: &F, h: &hash::Hash) -> (knows: bool)
    requires
        answers(peer_knows_event),
    ensures
        knows == known(peer_knows_event, h@),
{
    let knows = peer_knows_event(h);
    proof {
        if known(peer_knows_event, h@) {
            let w = choose|w: hash::Hash| w@ == h@ && call_ensures(*peer_knows_event, (&w,), true);
            assert(call_ensures(*peer_knows_event, (&w,), true));
            assert(call_ensures(*peer_knows_event, (h,), knows));
        }
    }
    knows
}

impl Graph {
    /// The event with digest `h` has no children.
    pub open(crate) spec fn childless(&self, h: Seq<u8>) -> bool {
        self.childless_at(self.index_of(h))
    }

    /// The event `e` is to be sent: the peer knows neither `e` nor any
    /// event that descends from it, and every event without children that
    /// descends from it is one of the tips.
    pub open spec fn to_send<F: Fn(&hash::Hash) -> bool>(
        &self,
        e: Seq<u8>,
        peer_knows_event: &F,
        tips: Seq<hash::Hash>,
    ) -> bool {
        &&& self.contains(e)
        &&& forall|d: Seq<u8>| #[trigger]
            self.has_ancestor(d, e) ==> !known(peer_knows_event, d) && (self.childless(d)
                ==> exists|k: int| 0 <= k < tips.len() && #[trigger] tips[k]@ == d)
    }

    pub open(crate) spec fn childless_at(&self, i: int) -> bool {
        self.entries@[i].children@.len() == 0
    }

    pub open(crate) spec fn tip_at(&self, tips: Seq<hash::Hash>, i: int) -> bool {
        exists|k: int| 0 <= k < tips.len() && #[trigger] tips[k]@ == self.hash_at(i)
    }

    /// What `to_send` asks of the event at `i` itself.
    pub open(crate) spec fn due_at<F: Fn(&hash::Hash) -> bool>(
        &self,
        f: &F,
        tips: Seq<hash::Hash>,
        i: int,
    ) -> bool {
        !known(f, self.hash_at(i)) && (self.childless_at(i) ==> self.tip_at(tips, i))
    }

    /// `to_send`, by position.
    pub open(crate) spec fn wanted_at<F: Fn(&hash::Hash) -> bool>(
        &self,
        f: &F,
        tips: Seq<hash::Hash>,
        i: int,
    ) -> bool {
        0 <= i < self.size() && forall|d: int| #[trigger] self.anc(d, i) ==> self.due_at(f, tips, d)
    }

    /// All children of the event at `i` were visited.
    pub open(crate) spec fn kids_visited(&self, visited: Seq<bool>, i: int) -> bool {
        forall|c: int| #[trigger] self.child_of(c, i) ==> visited[c]
    }

    /// All children of the `k`-th event of `sorted` stand before it.
    pub open(crate) spec fn kids_before(&self, sorted: Seq<usize>, k: int) -> bool {
        forall|c: int|
            #[trigger] self.child_of(c, sorted[k] as int) ==> exists|j: int|
                0 <= j < k && #[trigger] sorted[j] == c
    }

    /// The invariant of the traversal that sorts the events to send.
    pub open(crate) spec fn sorting<F: Fn(&hash::Hash) -> bool>(
        &self,
        f: &F,
        tips: Seq<hash::Hash>,
        visited: Seq<bool>,
        queued: Seq<bool>,
        queue: Seq<usize>,
        sorted: Seq<usize>,
    ) -> bool {
        &&& visited.len() == self.size()
        &&& queued.len() == self.size()
        &&& sorted.no_duplicates()
        &&& forall|k: int| 0 <= k < sorted.len() ==> #[trigger] sorted[k] < self.size() && visited[sorted[k] as int]
        &&& forall|i: int| 0 <= i < self.size() && #[trigger] visited[i] ==> listed(sorted, i)
        &&& forall|i: int|
            0 <= i < self.size() && #[trigger] visited[i] ==> self.due_at(f, tips, i)
                && self.kids_visited(visited, i)
        &&& forall|k: int|
            0 <= k < queue.len() ==> #[trigger] queue[k] < self.size() && self.due_at(
                f,
                tips,
                queue[k] as int,
            ) && self.kids_visited(visited, queue[k] as int)
        &&& forall|i: int|
            0 <= i < self.size() && #[trigger] queued[i] ==> visited[i] || listed(queue, i)
        &&& forall|i: int|
            0 <= i < self.size() && !self.childless_at(i) && !known(f, self.hash_at(i))
                && #[trigger] self.kids_visited(visited, i) ==> queued[i]
        &&& forall|i: int|
            0 <= i < self.size() && self.childless_at(i) && !known(f, self.hash_at(i))
                && #[trigger] self.tip_at(tips, i) ==> visited[i] || listed(queue, i)
        &&& forall|k: int| 0 <= k < sorted.len() ==> #[trigger] self.kids_before(sorted, k)
    }

    /// An event has no children if and only if no event names it as a
    /// parent.
    pub(crate) proof fn lemma_childless(&self, i: int)
        requires
            self.wf_store(),
            0 <= i < self.size(),
        ensures
            self.childless_at(i) <==> forall|c: int| !self.child_of(c, i),
    {
        let kids = self.entries@[i].children@;
        if kids.len() > 0 {
            assert(kids.contains(kids[0]));
            assert(self.child_of(kids[0] as int, i));
        }
        if exists|c: int| self.child_of(c, i) {
            let c = choose|c: int| self.child_of(c, i);
            assert(self.entries@.len() == self.entries.len());
            assert(kids.contains(c as usize));
        }
    }

    /// What was visited is to be sent.
    pub(crate) proof fn lemma_visited_wanted<F: Fn(&hash::Hash) -> bool>(
        &self,
        f: &F,
        tips: Seq<hash::Hash>,
        visited: Seq<bool>,
        queued: Seq<bool>,
        queue: Seq<usize>,
        sorted: Seq<usize>,
        i: int,
        d: int,
    )
        requires
            self.wf_store(),
            self.sorting(f, tips, visited, queued, queue, sorted),
            0 <= i < self.size(),
            visited[i],
            self.anc(d, i),
        ensures
            visited[d],
            self.due_at(f, tips, d),
        decreases d,
    {
        if d != i {
            let p = if self.anc(self.sp(d), i) {
                self.sp(d)
            } else {
                self.op(d)
            };
            self.lemma_visited_wanted(f, tips, visited, queued, queue, sorted, i, p);
            assert(self.kids_visited(visited, p));
            assert(self.child_of(d, p));
        }
    }

    /// When nothing is left to visit, what is to be sent was visited.
    pub(crate) proof fn lemma_wanted_visited<F: Fn(&hash::Hash) -> bool>(
        &self,
        f: &F,
        tips: Seq<hash::Hash>,
        visited: Seq<bool>,
        queued: Seq<bool>,
        sorted: Seq<usize>,
        i: int,
    )
        requires
            self.wf_store(),
            self.sorting(f, tips, visited, queued, Seq::empty(), sorted),
            self.wanted_at(f, tips, i),
        ensures
            visited[i],
        decreases self.size() - i,
    {
        self.lemma_anc_reflexive(i);
        assert(self.due_at(f, tips, i));
        if self.childless_at(i) {
            assert(self.tip_at(tips, i));
            assert(visited[i] || listed(Seq::<usize>::empty(), i));
        } else {
            assert forall|c: int| #[trigger] self.child_of(c, i) implies visited[c] by {
                assert(c > i);
                assert(self.anc(c, i)) by {
                    self.lemma_anc_reflexive(i);
                }
                assert forall|d: int| #[trigger] self.anc(d, c) implies self.due_at(f, tips, d) by {
                    self.lemma_anc_transitive(d, c, i);
                }
                self.lemma_wanted_visited(f, tips, visited, queued, sorted, c);
            }
            assert(self.kids_visited(visited, i));
            assert(queued[i]);
            assert(visited[i] || listed(Seq::<usize>::empty(), i));
        }
    }

    /// Whether all children of the event at `m` were visited.
    fn all_children_visited(&self, m: usize, visited: &Vec<bool>) -> (all: bool)
        requires
            self.wf_store(),
            m < self.size(),
            visited@.len() == self.size(),
        ensures
            all == self.kids_visited(visited@, m as int),
    {
        let kids = &self.entries[m].children;
        let mut k: usize = 0;
        while k < kids.len()
            invariant
                k <= kids@.len(),
                self.wf_store(),
                m < self.size(),
                visited@.len() == self.size(),
                kids@ == self.entries@[m as int].children@,
                forall|j: int| 0 <= j < k ==> visited@[#[trigger] kids@[j] as int],
            decreases kids.len() - k,
        {
            let c = kids[k];
            proof {
                assert(kids@.contains(c));
                assert(self.child_of(c as int, m as int));
            }
            if !visited[c] {
                return false;
            }
            k = k + 1;
        }
        proof {
            assert forall|c: int| #[trigger] self.child_of(c, m as int) implies visited@[c] by {
                assert(self.entries@.len() == self.entries.len());
                assert(kids@.contains(c as usize));
                let j = choose|j: int| 0 <= j < kids@.len() && kids@[j] == c as usize;
                assert(visited@[kids@[j] as int]);
            }
        }
        true
    }

    /// The parent at `m` of the event that was just visited is to be
    /// queued: it was not queued before, the peer does not know it, and all
    /// its children were visited.
    pub open(crate) spec fn enqueues<F: Fn(&hash::Hash) -> bool>(
        &self,
        f: &F,
        m: int,
        visited: Seq<bool>,
        queued: Seq<bool>,
    ) -> bool {
        !queued[m] && !known(f, self.hash_at(m)) && self.kids_visited(visited, m) && !visited[m]
    }

    /// The queue and the marks of what was queued after the parent at `m`
    /// of the event that was just visited was considered.
    pub open(crate) spec fn considered<F: Fn(&hash::Hash) -> bool>(
        &self,
        f: &F,
        m: int,
        visited: Seq<bool>,
        queued: Seq<bool>,
        queue: Seq<usize>,
    ) -> (Seq<bool>, Seq<usize>) {
        if self.enqueues(f, m, visited, queued) {
            (queued.update(m, true), queue.push(m as usize))
        } else {
            (queued, queue)
        }
    }

    /// The state of the traversal after the head of the queue was taken:
    /// the queue, the marks of what was visited and of what was queued.
    pub open(crate) spec fn after_head<F: Fn(&hash::Hash) -> bool>(
        &self,
        f: &F,
        queue: Seq<usize>,
        visited: Seq<bool>,
        queued: Seq<bool>,
    ) -> (Seq<usize>, Seq<bool>, Seq<bool>) {
        let next = queue[0] as int;
        let rest = queue.subrange(1, queue.len() as int);
        if visited[next] {
            (rest, visited, queued)
        } else if self.is_genesis_at(next) {
            (rest, visited.update(next, true), queued)
        } else {
            let visited2 = visited.update(next, true);
            let (queued1, queue1) = self.considered(f, self.sp(next), visited2, queued, rest);
            let (queued2, queue2) = self.considered(f, self.op(next), visited2, queued1, queue1);
            (queue2, visited2, queued2)
        }
    }

    /// The positions that the traversal visits from the given state on, in
    /// the order in which it visits them: the head of the queue, unless it
    /// was visited before, and then what is visited after its parents were
    /// considered, the self parent first.
    pub open(crate) spec fn visit_order<F: Fn(&hash::Hash) -> bool>(
        &self,
        f: &F,
        queue: Seq<usize>,
        visited: Seq<bool>,
        queued: Seq<bool>,
    ) -> Seq<usize>
        decreases count_false(queued) + queue.len(),
    {
        if queue.len() == 0 {
            Seq::empty()
        } else {
            let (queue2, visited2, queued2) = self.after_head(f, queue, visited, queued);
            let head = if visited[queue[0] as int] {
                Seq::<usize>::empty()
            } else {
                seq![queue[0]]
            };
            if count_false(queued2) + queue2.len() < count_false(queued) + queue.len() {
                head + self.visit_order(f, queue2, visited2, queued2)
            } else {
                head
            }
        }
    }

    /// The positions of the first `k` tips that the traversal starts from:
    /// those that have no children and that the peer does not know.
    pub open(crate) spec fn sources<F: Fn(&hash::Hash) -> bool>(
        &self,
        f: &F,
        tips: Seq<hash::Hash>,
        k: int,
    ) -> Seq<usize>
        decreases k,
    {
        if k <= 0 {
            Seq::empty()
        } else {
            let tip = tips[k - 1]@;
            self.sources(f, tips, k - 1) + (if self.contains(tip) && self.childless(tip) && !known(
                f,
                tip,
            ) {
                seq![self.index_of(tip) as usize]
            } else {
                Seq::<usize>::empty()
            })
        }
    }

    /// The digests of the events to send in the order in which they are
    /// sent: the reverse of the order in which the traversal, started from
    /// the tips, visits them.
    pub open(crate) spec fn sync_order<F: Fn(&hash::Hash) -> bool>(
        &self,
        f: &F,
        tips: Seq<hash::Hash>,
    ) -> Seq<Seq<u8>> {
        self.hashes_at(
            self.visit_order(
                f,
                self.sources(f, tips, tips.len() as int),
                Seq::new(self.size() as nat, |i: int| false),
                Seq::new(self.size() as nat, |i: int| false),
            ).reverse(),
        )
    }

    /// Queues the parent at `m` of the event that was just visited, if it
    /// is to be queued.
    fn consider<F: Fn(&hash::Hash) -> bool>(
        &self,
        f: &F,
        m: usize,
        visited: &Vec<bool>,
        queued: &mut Vec<bool>,
        queue: &mut VecDeque<usize>,
    )
        requires
            self.wf_store(),
            answers(f),
            m < self.size(),
            visited@.len() == self.size(),
            old(queued)@.len() == self.size(),
        ensures
            final(queued)@ == (if self.enqueues(f, m as int, visited@, old(queued)@) {
                old(queued)@.update(m as int, true)
            } else {
                old(queued)@
            }),
            final(queue)@ == (if self.enqueues(f, m as int, visited@, old(queued)@) {
                old(queue)@.push(m)
            } else {
                old(queue)@
            }),
            (final(queued)@, final(queue)@) == self.considered(
                f,
                m as int,
                visited@,
                old(queued)@,
                old(queue)@,
            ),
    {
        if queued[m] {
            // already scheduled
            return ;
        }
        if ask(f, self.entries[m].event.hash()) {
            // known to the peer
            return ;
        }
        if self.all_children_visited(m, visited) {
            if !visited[m] {
                queued[m] = true;
                queue.push_back(m);
            }
        }
    }

    /// Dropping an event that was visited before from the head of the queue
    /// keeps the invariant.
    proof fn lemma_sorting_skip<F: Fn(&hash::Hash) -> bool>(
        &self,
        f: &F,
        tips: Seq<hash::Hash>,
        visited: Seq<bool>,
        queued: Seq<bool>,
        queue: Seq<usize>,
        sorted: Seq<usize>,
    )
        requires
            self.sorting(f, tips, visited, queued, queue, sorted),
            queue.len() > 0,
            visited[queue[0] as int],
        ensures
            self.sorting(f, tips, visited, queued, queue.subrange(1, queue.len() as int), sorted),
    {
        let rest = queue.subrange(1, queue.len() as int);
        assert forall|k: int| 0 <= k < rest.len() implies #[trigger] rest[k] < self.size()
            && self.due_at(f, tips, rest[k] as int) && self.kids_visited(visited, rest[k] as int) by {
            assert(rest[k] == queue[k + 1]);
        }
        assert forall|i: int| listed(queue, i) && i != queue[0] implies listed(rest, i) by {
            let k = choose|k: int| 0 <= k < queue.len() && #[trigger] queue[k] == i;
            assert(rest[k - 1] == i);
        }
    }

    /// Visiting the head of the queue and considering its parents keeps the
    /// invariant, and lowers the measure of the traversal by one.
    proof fn lemma_sorting_step<F: Fn(&hash::Hash) -> bool>(
        &self,
        f: &F,
        tips: Seq<hash::Hash>,
        visited: Seq<bool>,
        queued: Seq<bool>,
        queue: Seq<usize>,
        sorted: Seq<usize>,
        queued1: Seq<bool>,
        queue1: Seq<usize>,
        queued2: Seq<bool>,
        queue2: Seq<usize>,
    )
        requires
            self.wf_store(),
            self.sorting(f, tips, visited, queued, queue, sorted),
            queue.len() > 0,
            !visited[queue[0] as int],
            ({
                let next = queue[0] as int;
                let visited2 = visited.update(next, true);
                let rest = queue.subrange(1, queue.len() as int);
                if self.is_genesis_at(next) {
                    queued1 == queued && queue1 == rest && queued2 == queued && queue2 == rest
                } else {
                    &&& queued1 == (if self.enqueues(f, self.sp(next), visited2, queued) {
                        queued.update(self.sp(next), true)
                    } else {
                        queued
                    })
                    &&& queue1 == (if self.enqueues(f, self.sp(next), visited2, queued) {
                        rest.push(self.sp(next) as usize)
                    } else {
                        rest
                    })
                    &&& queued2 == (if self.enqueues(f, self.op(next), visited2, queued1) {
                        queued1.update(self.op(next), true)
                    } else {
                        queued1
                    })
                    &&& queue2 == (if self.enqueues(f, self.op(next), visited2, queued1) {
                        queue1.push(self.op(next) as usize)
                    } else {
                        queue1
                    })
                }
            }),
        ensures
            self.sorting(
                f,
                tips,
                visited.update(queue[0] as int, true),
                queued2,
                queue2,
                sorted.push(queue[0]),
            ),
            count_false(queued2) + queue2.len() + 1 == count_false(queued) + queue.len(),
            self.after_head(f, queue, visited, queued) == (
                queue2,
                visited.update(queue[0] as int, true),
                queued2,
            ),
    {
        let next = queue[0] as int;
        let visited2 = visited.update(next, true);
        let rest = queue.subrange(1, queue.len() as int);
        let sorted2 = sorted.push(queue[0]);
        assert(self.entries@.len() == self.entries.len());
        // the measure
        if !self.is_genesis_at(next) {
            if self.enqueues(f, self.sp(next), visited2, queued) {
                lemma_count_false_update(queued, self.sp(next));
            }
            if self.enqueues(f, self.op(next), visited2, queued1) {
                lemma_count_false_update(queued1, self.op(next));
            }
        }
        // the queue holds the rest of the old queue and what was queued now
        assert forall|i: int| listed(queue, i) && i != next implies listed(queue2, i) by {
            let k = choose|k: int| 0 <= k < queue.len() && #[trigger] queue[k] == i;
            assert(rest[k - 1] == i);
            assert(queue1[k - 1] == i);
            assert(queue2[k - 1] == i);
        }
        assert forall|i: int| 0 <= i < self.size() && queued2[i] && !queued[i] implies listed(
            queue2,
            i,
        ) && !self.is_genesis_at(next) && (i == self.sp(next) || i == self.op(next))
            && !visited2[i] && self.kids_visited(visited2, i) && !known(f, self.hash_at(i)) by {
            if queued1[i] {
                assert(queue1[queue1.len() - 1] == i);
                assert(queue2[rest.len() as int] == i);
            } else {
                assert(queue2[queue2.len() - 1] == i);
            }
        }
        assert forall|k: int| 0 <= k < queue2.len() implies #[trigger] queue2[k] < self.size()
            && self.due_at(f, tips, queue2[k] as int) && self.kids_visited(
            visited2,
            queue2[k] as int,
        ) by {
            if k < rest.len() {
                assert(queue2[k] == queue[k + 1]);
                assert(self.kids_visited(visited, queue[k + 1] as int));
            } else {
                let i = queue2[k] as int;
                assert(i == self.sp(next) || i == self.op(next));
                assert(self.child_of(next, i));
                self.lemma_childless(i);
            }
        }
        // sorted
        assert(sorted2.no_duplicates()) by {
            assert forall|a: int, b: int| 0 <= a < b < sorted2.len() implies sorted2[a]
                != sorted2[b] by {
                if b == sorted.len() {
                    assert(visited[sorted[a] as int]);
                }
            }
        }
        assert forall|i: int| 0 <= i < self.size() && #[trigger] visited2[i] implies listed(
            sorted2,
            i,
        ) by {
            if i == next {
                assert(sorted2[sorted.len() as int] == i);
            } else {
                assert(visited[i]);
                let k = choose|k: int| 0 <= k < sorted.len() && #[trigger] sorted[k] == i;
                assert(sorted2[k] == i);
            }
        }
        assert forall|i: int| 0 <= i < self.size() && #[trigger] visited2[i] implies self.due_at(
            f,
            tips,
            i,
        ) && self.kids_visited(visited2, i) by {
            if i == next {
                assert(self.kids_visited(visited, queue[0] as int));
            } else {
                assert(visited[i]);
                assert(self.kids_visited(visited, i));
            }
        }
        assert forall|i: int| 0 <= i < self.size() && #[trigger] queued2[i] implies visited2[i]
            || listed(queue2, i) by {
            if queued[i] {
                assert(visited[i] || listed(queue, i));
            }
        }
        assert forall|i: int|
            0 <= i < self.size() && !self.childless_at(i) && !known(f, self.hash_at(i))
                && #[trigger] self.kids_visited(visited2, i) implies queued2[i] by {
            if self.kids_visited(visited, i) {
                assert(queued[i]);
            } else {
                let c = choose|c: int| #[trigger] self.child_of(c, i) && !visited[c];
                assert(visited2[c]);
                assert(c == next);
                // i is a parent of next and was considered
                if !queued2[i] {
                    if visited2[i] {
                        assert(visited[i]);
                        assert(self.kids_visited(visited, i));
                    }
                    if i == self.sp(next) {
                        assert(self.enqueues(f, i, visited2, queued));
                    } else {
                        assert(self.enqueues(f, i, visited2, queued1));
                    }
                }
            }
        }
        assert forall|i: int|
            0 <= i < self.size() && self.childless_at(i) && !known(f, self.hash_at(i))
                && #[trigger] self.tip_at(tips, i) implies visited2[i] || listed(queue2, i) by {
            assert(visited[i] || listed(queue, i));
        }
        assert forall|k: int| 0 <= k < sorted2.len() implies #[trigger] self.kids_before(
            sorted2,
            k,
        ) by {
            if k < sorted.len() {
                assert(self.kids_before(sorted, k));
                assert forall|c: int| #[trigger] self.child_of(c, sorted2[k] as int) implies exists|
                    j: int,
                | 0 <= j < k && #[trigger] sorted2[j] == c by {
                    let j = choose|j: int| 0 <= j < k && #[trigger] sorted[j] == c;
                    assert(sorted2[j] == c);
                }
            } else {
                assert(self.kids_visited(visited, queue[0] as int));
                assert forall|c: int| #[trigger] self.child_of(c, sorted2[k] as int) implies exists|
                    j: int,
                | 0 <= j < k && #[trigger] sorted2[j] == c by {
                    assert(visited[c]);
                    assert(listed(sorted, c));
                    let j = choose|j: int| 0 <= j < sorted.len() && #[trigger] sorted[j] == c;
                    assert(sorted2[j] == c);
                }
            }
        }
        assert forall|k: int| 0 <= k < sorted2.len() implies #[trigger] sorted2[k] < self.size()
            && visited2[sorted2[k] as int] by {
            if k < sorted.len() {
                assert(sorted2[k] == sorted[k]);
            }
        }
    }

    /// `to_send` by digest is `wanted_at` by position.
    pub(crate) proof fn lemma_to_send<F: Fn(&hash::Hash) -> bool>(
        &self,
        f: &F,
        tips: Seq<hash::Hash>,
        i: int,
    )
        requires
            self.wf_store(),
            0 <= i < self.size(),
        ensures
            self.to_send(self.hash_at(i), f, tips) == self.wanted_at(f, tips, i),
    {
        let e = self.hash_at(i);
        self.lemma_position(i);
        if self.to_send(e, f, tips) {
            assert forall|d: int| #[trigger] self.anc(d, i) implies self.due_at(f, tips, d) by {
                self.lemma_position(d);
                self.lemma_has_ancestor(d, i);
                assert(self.has_ancestor(self.hash_at(d), e));
                if self.childless_at(d) {
                    assert(self.childless(self.hash_at(d)));
                }
            }
        }
        if self.wanted_at(f, tips, i) {
            assert forall|d: Seq<u8>| #[trigger] self.has_ancestor(d, e) implies !known(f, d) && (
            self.childless(d) ==> exists|k: int| 0 <= k < tips.len() && #[trigger] tips[k]@ == d) by {
                self.lemma_index_of(d);
                let at = self.index_of(d);
                self.lemma_has_ancestor(at, i);
                assert(self.anc(at, i));
                assert(self.due_at(f, tips, at));
                if self.childless(d) {
                    assert(self.tip_at(tips, at));
                }
            }
        }
    }

    /// The positions of the events to send, each before its children;
    /// fails if a tip is not in the store.
    fn sort_unknown<F: Fn(&hash::Hash) -> bool>(&self, f: &F, tips: &Vec<hash::Hash>) -> (result:
        Result<Vec<usize>, Error>)
        requires
            self.wf(),
            answers(f),
        ensures
            match result {
                Ok(order) => {
                    &&& forall|k: int| 0 <= k < tips@.len() ==> self.contains(#[trigger] tips@[k]@)
                    &&& self.hashes_at(order@) == self.sync_order(f, tips@)
                    &&& order@.no_duplicates()
                    &&& forall|k: int| 0 <= k < order@.len() ==> #[trigger] order@[k] < self.size()
                    &&& forall|i: int|
                        0 <= i < self.size() ==> (listed(order@, i) <==> #[trigger] self.wanted_at(
                            f,
                            tips@,
                            i,
                        ))
                    &&& forall|a: int, b: int|
                        0 <= a < b < order@.len() ==> !self.child_of(
                            #[trigger] order@[a] as int,
                            #[trigger] order@[b] as int,
                        )
                },
                Err(error) => {
                    &&& error matches Error::IncorrectTip(h)
                    &&& !self.contains(h@)
                    &&& exists|k: int|
                        0 <= k < tips@.len() && #[trigger] tips@[k]@ == h@ && forall|j: int|
                            0 <= j < k ==> self.contains(#[trigger] tips@[j]@)
                },
            },
    {
        // Treat every parent -> child link as reversed: the nodes without
        // incoming links are the tips. Tips that the peer knows are left
        // out, since the peer knows all their ancestors too.
        let mut to_visit: VecDeque<usize> = VecDeque::new();
        let mut k: usize = 0;
        while k < tips.len()
            invariant
                k <= tips@.len(),
                self.wf(),
                answers(f),
                forall|j: int| 0 <= j < k ==> self.contains(#[trigger] tips@[j]@),
                forall|j: int|
                    0 <= j < to_visit@.len() ==> #[trigger] to_visit@[j] < self.size()
                        && self.childless_at(to_visit@[j] as int) && !known(
                        f,
                        self.hash_at(to_visit@[j] as int),
                    ) && self.tip_at(tips@, to_visit@[j] as int),
                forall|j: int|
                    0 <= j < k && self.childless(#[trigger] tips@[j]@) && !known(f, tips@[j]@)
                        ==> listed(to_visit@, self.index_of(tips@[j]@)),
                to_visit@ == self.sources(f, tips@, k as int),
            decreases tips.len() - k,
        {
            let tip = &tips[k];
            let ghost before = to_visit@;
            match self.position(tip) {
                None => {
                    return Err(Error::IncorrectTip(*tip));
                },
                Some(at) => {
                    proof {
                        self.lemma_index_of(tip@);
                    }
                    if self.entries[at].children.len() == 0 {
                        if !ask(f, tip) {
                            to_visit.push_back(at);
                            proof {
                                assert(to_visit@[before.len() as int] == at);
                            }
                        }
                    }
                },
            }
            proof {
                assert(to_visit@ =~= self.sources(f, tips@, k + 1));
                assert forall|j: int|
                    0 <= j < k + 1 && self.childless(#[trigger] tips@[j]@) && !known(
                        f,
                        tips@[j]@,
                    ) implies listed(to_visit@, self.index_of(tips@[j]@)) by {
                    if j < k {
                        let i = self.index_of(tips@[j]@);
                        assert(listed(before, i));
                        let q = choose|q: int| 0 <= q < before.len() && #[trigger] before[q] == i;
                        assert(to_visit@[q] == i);
                    } else {
                        assert(to_visit@[before.len() as int] == self.index_of(tips@[j]@));
                    }
                }
            }
            k = k + 1;
        }
        // Now sort, stopping at the events that the peer knows.
        let n = self.entries.len();
        let mut visited: Vec<bool> = Vec::new();
        let mut queued: Vec<bool> = Vec::new();
        let mut i: usize = 0;
        while i < n
            invariant
                i <= n,
                visited@.len() == i,
                queued@.len() == i,
                forall|j: int| 0 <= j < i ==> !visited@[j] && !queued@[j],
            decreases n - i,
        {
            visited.push(false);
            queued.push(false);
            i = i + 1;
        }
        let mut sorted: Vec<usize> = Vec::new();
        proof {
            assert forall|j: int| 0 <= j < to_visit@.len() implies #[trigger] to_visit@[j]
                < self.size() && self.due_at(f, tips@, to_visit@[j] as int) && self.kids_visited(
                visited@,
                to_visit@[j] as int,
            ) by {
                self.lemma_childless(to_visit@[j] as int);
            }
            assert forall|i: int|
                0 <= i < self.size() && !self.childless_at(i) && !known(f, self.hash_at(i))
                    && #[trigger] self.kids_visited(visited@, i) implies queued@[i] by {
                self.lemma_childless(i);
                let c = choose|c: int| self.child_of(c, i);
                assert(visited@[c]);
            }
            assert forall|i: int|
                0 <= i < self.size() && self.childless_at(i) && !known(f, self.hash_at(i))
                    && #[trigger] self.tip_at(tips@, i) implies visited@[i] || listed(
                to_visit@,
                i,
            ) by {
                let j = choose|j: int| 0 <= j < tips@.len() && #[trigger] tips@[j]@ == self.hash_at(i);
                self.lemma_position(i);
                assert(self.childless(tips@[j]@));
            }
            assert(self.sorting(f, tips@, visited@, queued@, to_visit@, sorted@));
            assert(visited@ =~= Seq::new(self.size() as nat, |i: int| false));
            assert(queued@ =~= Seq::new(self.size() as nat, |i: int| false));
        }
        let ghost total = self.visit_order(f, to_visit@, visited@, queued@);
        while to_visit.len() > 0
            invariant
                self.wf(),
                answers(f),
                self.sorting(f, tips@, visited@, queued@, to_visit@, sorted@),
                total == sorted@ + self.visit_order(f, to_visit@, visited@, queued@),
            decreases count_false(queued@) + to_visit@.len(),
        {
            let ghost visited0 = visited@;
            let ghost queued0 = queued@;
            let ghost queue0 = to_visit@;
            let ghost sorted0 = sorted@;
            let next = to_visit.pop_front().unwrap();
            if visited[next] {
                proof {
                    self.lemma_sorting_skip(f, tips@, visited0, queued0, queue0, sorted0);
                    assert(self.after_head(f, queue0, visited0, queued0) == (
                        to_visit@,
                        visited@,
                        queued@,
                    ));
                    assert(sorted0 + Seq::<usize>::empty() =~= sorted0);
                    assert(total =~= sorted@ + self.visit_order(f, to_visit@, visited@, queued@));
                }
            } else {
                visited[next] = true;
                let ghost queued1;
                let ghost queue1;
                match self.entries[next].parents {
                    None => {
                        proof {
                            queued1 = queued@;
                            queue1 = to_visit@;
                        }
                    },
                    Some((self_parent, other_parent)) => {
                        proof {
                            assert(!self.is_genesis_at(next as int));
                        }
                        self.consider(f, self_parent, &visited, &mut queued, &mut to_visit);
                        proof {
                            queued1 = queued@;
                            queue1 = to_visit@;
                        }
                        self.consider(f, other_parent, &visited, &mut queued, &mut to_visit);
                    },
                }
                sorted.push(next);
                proof {
                    self.lemma_sorting_step(
                        f,
                        tips@,
                        visited0,
                        queued0,
                        queue0,
                        sorted0,
                        queued1,
                        queue1,
                        queued@,
                        to_visit@,
                    );
                    assert(visited@ == visited0.update(next as int, true));
                    assert(self.visit_order(f, queue0, visited0, queued0) == seq![next]
                        + self.visit_order(f, to_visit@, visited@, queued@));
                    assert(total =~= sorted@ + self.visit_order(f, to_visit@, visited@, queued@));
                }
            }
        }
        // note: the graph has no loops
        proof {
            assert(to_visit@ =~= Seq::<usize>::empty());
            assert(total =~= sorted@);
            assert forall|i: int| 0 <= i < self.size() implies (listed(sorted@, i)
                <==> #[trigger] self.wanted_at(f, tips@, i)) by {
                if listed(sorted@, i) {
                    let q = choose|q: int| 0 <= q < sorted@.len() && #[trigger] sorted@[q] == i;
                    assert(visited@[sorted@[q] as int]);
                    assert forall|d: int| #[trigger] self.anc(d, i) implies self.due_at(
                        f,
                        tips@,
                        d,
                    ) by {
                        self.lemma_visited_wanted(
                            f,
                            tips@,
                            visited@,
                            queued@,
                            to_visit@,
                            sorted@,
                            i,
                            d,
                        );
                    }
                }
                if self.wanted_at(f, tips@, i) {
                    self.lemma_wanted_visited(f, tips@, visited@, queued@, sorted@, i);
                }
            }
        }
        // Reverse the ordering to get the result
        let mut order: Vec<usize> = Vec::new();
        let mut left: usize = sorted.len();
        while left > 0
            invariant
                left <= sorted@.len(),
                order@.len() == sorted@.len() - left,
                forall|j: int|
                    0 <= j < order@.len() ==> #[trigger] order@[j] == sorted@[sorted@.len() - 1 - j],
            decreases left,
        {
            left = left - 1;
            order.push(sorted[left]);
        }
        proof {
            let len = sorted@.len() as int;
            assert(order@ =~= sorted@.reverse());
            assert forall|a: int, b: int| 0 <= a < b < order@.len() implies order@[a] != order@[b] by {
                assert(sorted@[len - 1 - a] != sorted@[len - 1 - b]);
            }
            assert forall|i: int| listed(order@, i) <==> listed(sorted@, i) by {
                if listed(order@, i) {
                    let q = choose|q: int| 0 <= q < order@.len() && #[trigger] order@[q] == i;
                    assert(sorted@[len - 1 - q] == i);
                }
                if listed(sorted@, i) {
                    let q = choose|q: int| 0 <= q < sorted@.len() && #[trigger] sorted@[q] == i;
                    assert(order@[len - 1 - q] == i);
                }
            }
            assert forall|a: int, b: int| 0 <= a < b < order@.len() implies !self.child_of(
                #[trigger] order@[a] as int,
                #[trigger] order@[b] as int,
            ) by {
                let kb = len - 1 - b;
                let ka = len - 1 - a;
                assert(self.kids_before(sorted@, kb));
                if self.child_of(order@[a] as int, order@[b] as int) {
                    assert(sorted@[kb] == order@[b]);
                    let j = choose|j: int| 0 <= j < kb && #[trigger] sorted@[j] == order@[a] as int;
                    assert(sorted@[ka] == order@[a]);
                    assert(j != ka);
                }
            }
            assert forall|k: int| 0 <= k < order@.len() implies #[trigger] order@[k]
                < self.size() by {
                assert(sorted@[len - 1 - k] < self.size());
            }
        }
        Ok(order)
    }
}

impl Graph {
    /// An event has no children if and only if its child pointers are
    /// empty, and if and only if no stored event names it as a parent.
    pub proof fn lemma_childless_event(&self, h: Seq<u8>)
        requires
            self.wf(),
            self.contains(h),
        ensures
            self.childless(h) <==> self.children_of(h).self_child is NoChild && self.children_of(
                h,
            ).other_children.len() == 0,
            self.childless(h) <==> forall|c: Seq<u8>|
                self.contains(c) && !(#[trigger] self.event_of(c)).is_genesis() ==> self.event_of(
                    c,
                ).self_parent() != h && self.event_of(c).other_parent() != h,
    {
        self.lemma_index_of(h);
        let i = self.index_of(h);
        self.lemma_childless(i);
        let own = self.children_of(h).self_child.list();
        let others = self.children_of(h).other_children;
        if exists|c: int| self.child_of(c, i) {
            let c = choose|c: int| self.child_of(c, i);
            self.lemma_position(c);
            self.lemma_position(self.sp(c));
            self.lemma_position(self.op(c));
            if self.sp(c) == i {
                assert(own.contains(self.hash_at(c)));
            } else {
                assert(others.contains(self.hash_at(c)));
            }
            assert(!self.event_of(self.hash_at(c)).is_genesis());
        }
        if own.len() > 0 {
            assert(own.contains(own[0]));
            let j = choose|j: int|
                0 <= j < self.size() && !self.is_genesis_at(j) && self.sp(j) == i
                    && #[trigger] self.hash_at(j) == own[0];
            assert(self.child_of(j, i));
        }
        if others.len() > 0 {
            assert(others.contains(others[0]));
            let j = choose|j: int|
                0 <= j < self.size() && !self.is_genesis_at(j) && self.op(j) == i
                    && #[trigger] self.hash_at(j) == others[0];
            assert(self.child_of(j, i));
        }
        if exists|c: Seq<u8>|
            self.contains(c) && !(#[trigger] self.event_of(c)).is_genesis() && (self.event_of(
                c,
            ).self_parent() == h || self.event_of(c).other_parent() == h) {
            let c = choose|c: Seq<u8>|
                self.contains(c) && !(#[trigger] self.event_of(c)).is_genesis() && (self.event_of(
                    c,
                ).self_parent() == h || self.event_of(c).other_parent() == h);
            self.lemma_index_of(c);
            let j = self.index_of(c);
            assert(!self.is_genesis_at(j));
            self.lemma_position(self.sp(j));
            self.lemma_position(self.op(j));
            assert(self.child_of(j, i));
        }
    }

    /// Where the tips are all the events without children, and the peer
    /// knows the ancestors of every event that it knows, the events to send
    /// are the stored events that the peer does not know.
    pub proof fn lemma_to_send_all_unknown<F: Fn(&hash::Hash) -> bool>(
        &self,
        peer_knows_event: &F,
        tips: Seq<hash::Hash>,
    )
        requires
            self.wf(),
            forall|x: Seq<u8>, y: Seq<u8>|
                #[trigger] self.has_ancestor(x, y) && known(peer_knows_event, x) ==> known(
                    peer_knows_event,
                    y,
                ),
            forall|d: Seq<u8>|
                self.contains(d) && #[trigger] self.childless(d) ==> exists|k: int|
                    0 <= k < tips.len() && #[trigger] tips[k]@ == d,
        ensures
            forall|e: Seq<u8>| #[trigger]
                self.to_send(e, peer_knows_event, tips) <==> self.contains(e) && !known(
                    peer_knows_event,
                    e,
                ),
    {
        assert forall|e: Seq<u8>| #[trigger]
            self.to_send(e, peer_knows_event, tips) <==> self.contains(e) && !known(
                peer_knows_event,
                e,
            ) by {
            if self.to_send(e, peer_knows_event, tips) {
                self.lemma_ancestor_reflexive(e);
            }
        }
    }

    /// One of the first `upto` events has no children and digest `digest`.
    pub open(crate) spec fn tip_below(&self, digest: Seq<u8>, upto: int) -> bool {
        exists|j: int|
            0 <= j < upto && self.childless_at(j) && #[trigger] self.hash_at(j) == digest
    }

    /// Digests of the events without children, in the order of their
    /// admission.
    pub fn tips(&self) -> (tips: Vec<hash::Hash>)
        requires
            self.wf(),
        ensures
            tips.deep_view().no_duplicates(),
            forall|h: Seq<u8>|
                tips.deep_view().contains(h) <==> self.contains(h) && self.childless(h),
    {
        let mut tips: Vec<hash::Hash> = Vec::new();
        let mut i: usize = 0;
        while i < self.entries.len()
            invariant
                i <= self.entries.len(),
                self.wf(),
                forall|k: int| 0 <= k < tips@.len() ==> self.tip_below(#[trigger] tips@[k]@, i as int),
                forall|j: int|
                    0 <= j < i && #[trigger] self.childless_at(j) ==> self.tip_at(tips@, j),
                forall|a: int, b: int|
                    0 <= a < b < tips@.len() ==> #[trigger] tips@[a]@ != #[trigger] tips@[b]@,
            decreases self.entries.len() - i,
        {
            let ghost before = tips@;
            if self.entries[i].children.len() == 0 {
                tips.push(*self.entries[i].event.hash());
                proof {
                    assert forall|a: int, b: int| 0 <= a < b < tips@.len() implies #[trigger] tips@[a]@
                        != #[trigger] tips@[b]@ by {
                        if b == before.len() {
                            assert(self.tip_below(before[a]@, i as int));
                            let j = choose|j: int|
                                0 <= j < i && self.childless_at(j) && #[trigger] self.hash_at(j)
                                    == before[a]@;
                            assert(self.hash_at(j) != self.hash_at(i as int));
                        } else {
                            assert(before[a]@ != before[b]@);
                        }
                    }
                }
            }
            proof {
                assert forall|k: int| 0 <= k < tips@.len() implies self.tip_below(
                    #[trigger] tips@[k]@,
                    i + 1,
                ) by {
                    if k < before.len() {
                        assert(self.tip_below(before[k]@, i as int));
                        let j = choose|j: int|
                            0 <= j < i && self.childless_at(j) && #[trigger] self.hash_at(j)
                                == before[k]@;
                        assert(self.hash_at(j) == tips@[k]@);
                    } else {
                        assert(self.hash_at(i as int) == tips@[k]@);
                    }
                }
                assert forall|j: int| 0 <= j < i + 1 && #[trigger] self.childless_at(j) implies
                    self.tip_at(tips@, j) by {
                    if j < i {
                        assert(self.tip_at(before, j));
                        let k = choose|k: int|
                            0 <= k < before.len() && #[trigger] before[k]@ == self.hash_at(j);
                        assert(tips@[k]@ == self.hash_at(j));
                    } else {
                        assert(tips@[before.len() as int]@ == self.hash_at(j));
                    }
                }
            }
            i = i + 1;
        }
        proof {
            let digests = tips.deep_view();
            assert forall|a: int, b: int| 0 <= a < b < digests.len() implies digests[a]
                != digests[b] by {
                assert(tips@[a]@ != tips@[b]@);
            }
            assert forall|h: Seq<u8>| digests.contains(h) <==> self.contains(h) && self.childless(
                h,
            ) by {
                if digests.contains(h) {
                    let k = choose|k: int| 0 <= k < digests.len() && digests[k] == h;
                    assert(self.tip_below(tips@[k]@, i as int));
                    let j = choose|j: int|
                        0 <= j < i && self.childless_at(j) && #[trigger] self.hash_at(j)
                            == tips@[k]@;
                    self.lemma_position(j);
                }
                if self.contains(h) && self.childless(h) {
                    self.lemma_index_of(h);
                    let j = self.index_of(h);
                    assert(self.tip_at(tips@, j));
                    let k = choose|k: int|
                        0 <= k < tips@.len() && #[trigger] tips@[k]@ == self.hash_at(j);
                    assert(digests[k] == h);
                }
            }
        }
        tips
    }
}

impl Jobs {
    /// The events, oldest first.
    pub closed spec fn spec_linear(&self) -> Seq<SignedEvent> {
        self.inner@
    }

    pub fn as_linear(&self) -> (events: &Vec<SignedEvent>)
        ensures
            events@ == self.spec_linear(),
            events@.len() == self@.len(),
            forall|k: int| 0 <= k < self@.len() ==> (#[trigger] events@[k])@ == self@[k],
    {
        &self.inner
    }

    pub fn into_linear(self) -> (events: Vec<SignedEvent>)
        ensures
            events@ == self.spec_linear(),
            events@.len() == self@.len(),
            forall|k: int| 0 <= k < self@.len() ==> (#[trigger] events@[k])@ == self@[k],
    {
        self.inner
    }

    /// Generates the jobs for a peer to perform in order to reach at least
    /// the state `known_state`: the events that are to be sent (see
    /// `Graph::to_send`), each once and after its parents.
    ///
    /// Fails with `IncorrectTip` for the first of `known_state_tips` that
    /// the graph does not hold, and with `UnknownEvent` if `get_event` does
    /// not find an event that is to be sent.
    pub fn generate<F, G>(
        known_state: &Graph,
        peer_knows_event: F,
        known_state_tips: &Vec<hash::Hash>,
        get_event: G,
    ) -> (result: Result<Jobs, Error>) where
        F: Fn(&hash::Hash) -> bool,
        G: Fn(&hash::Hash) -> Option<SignedEvent>,

        requires
            known_state.wf(),
            answers(&peer_knows_event),
            resolves(&get_event, known_state),
        ensures
            match result {
                Ok(jobs) => {
                    &&& forall|k: int|
                        0 <= k < known_state_tips@.len() ==> known_state.contains(
                            #[trigger] known_state_tips@[k]@,
                        )
                    &&& digests_of(jobs@) == known_state.sync_order(
                        &peer_knows_event,
                        known_state_tips@,
                    )
                    &&& digests_of(jobs@).no_duplicates()
                    &&& forall|e: Seq<u8>|
                        digests_of(jobs@).contains(e) <==> #[trigger] known_state.to_send(
                            e,
                            &peer_knows_event,
                            known_state_tips@,
                        )
                    &&& forall|k: int|
                        0 <= k < jobs@.len() ==> #[trigger] jobs@[k] == known_state.event_of(
                            jobs@[k].hash(),
                        )
                    &&& parents_first(jobs@)
                },
                Err(Error::IncorrectTip(h)) => {
                    &&& !known_state.contains(h@)
                    &&& exists|k: int|
                        0 <= k < known_state_tips@.len() && #[trigger] known_state_tips@[k]@ == h@
                            && forall|j: int|
                            0 <= j < k ==> known_state.contains(#[trigger] known_state_tips@[j]@)
                },
                Err(Error::UnknownEvent(h)) => {
                    &&& forall|k: int|
                        0 <= k < known_state_tips@.len() ==> known_state.contains(
                            #[trigger] known_state_tips@[k]@,
                        )
                    &&& known_state.to_send(h@, &peer_knows_event, known_state_tips@)
                    &&& call_ensures(get_event, (&h,), None)
                },
            },
    {
        let order = match known_state.sort_unknown(&peer_knows_event, known_state_tips) {
            Ok(order) => order,
            Err(error) => {
                return Err(error);
            },
        };
        // Prepare the jobs
        let mut jobs: Vec<SignedEvent> = Vec::new();
        let mut k: usize = 0;
        while k < order.len()
            invariant
                k <= order@.len(),
                known_state.wf(),
                resolves(&get_event, known_state),
                forall|j: int|
                    0 <= j < known_state_tips@.len() ==> known_state.contains(
                        #[trigger] known_state_tips@[j]@,
                    ),
                forall|j: int| 0 <= j < order@.len() ==> #[trigger] order@[j] < known_state.size(),
                known_state.hashes_at(order@) == known_state.sync_order(
                    &peer_knows_event,
                    known_state_tips@,
                ),
                forall|i: int|
                    0 <= i < known_state.size() ==> (listed(order@, i)
                        <==> #[trigger] known_state.wanted_at(
                        &peer_knows_event,
                        known_state_tips@,
                        i,
                    )),
                jobs@.len() == k,
                forall|j: int|
                    0 <= j < k ==> (#[trigger] jobs@[j])@ == known_state.event_at(order@[j] as int),
            decreases order.len() - k,
        {
            let at = order[k];
            let digest = *known_state.entries[at].event.hash();
            proof {
                known_state.lemma_position(at as int);
                known_state.lemma_to_send(&peer_knows_event, known_state_tips@, at as int);
                assert(listed(order@, at as int));
                assert(known_state.wanted_at(&peer_knows_event, known_state_tips@, at as int));
            }
            match get_event(&digest) {
                Some(event) => {
                    jobs.push(event);
                },
                None => {
                    return Err(Error::UnknownEvent(digest));
                },
            }
            k = k + 1;
        }
        let result = Jobs { inner: jobs };
        proof {
            let events = result@;
            let digests = digests_of(events);
            assert forall|j: int| 0 <= j < events.len() implies #[trigger] events[j]
                == known_state.event_at(order@[j] as int) && digests[j] == known_state.hash_at(
                order@[j] as int,
            ) by {
                assert(result.inner@[j]@ == known_state.event_at(order@[j] as int));
            }
            assert(digests =~= known_state.hashes_at(order@));
            assert forall|a: int, b: int| 0 <= a < b < digests.len() implies digests[a]
                != digests[b] by {
                assert(order@[a] != order@[b]);
            }
            assert forall|e: Seq<u8>|
                digests.contains(e) <==> #[trigger] known_state.to_send(
                    e,
                    &peer_knows_event,
                    known_state_tips@,
                ) by {
                if digests.contains(e) {
                    let j = choose|j: int| 0 <= j < digests.len() && digests[j] == e;
                    let at = order@[j] as int;
                    assert(listed(order@, at));
                    known_state.lemma_to_send(&peer_knows_event, known_state_tips@, at);
                }
                if known_state.to_send(e, &peer_knows_event, known_state_tips@) {
                    known_state.lemma_index_of(e);
                    let at = known_state.index_of(e);
                    known_state.lemma_to_send(&peer_knows_event, known_state_tips@, at);
                    assert(listed(order@, at));
                    let j = choose|j: int| 0 <= j < order@.len() && #[trigger] order@[j] == at;
                    assert(digests[j] == e);
                }
            }
            assert forall|j: int| 0 <= j < events.len() implies #[trigger] events[j]
                == known_state.event_of(events[j].hash()) by {
                known_state.lemma_position(order@[j] as int);
            }
            assert forall|a: int, b: int|
                #![trigger events[a], events[b]]
                0 <= a < events.len() && 0 <= b < events.len() && !events[a].is_genesis() && (
                events[a].self_parent() == events[b].hash() || events[a].other_parent()
                    == events[b].hash()) implies b < a by {
                let x = order@[a] as int;
                let y = order@[b] as int;
                assert(!known_state.is_genesis_at(x));
                known_state.lemma_position(y);
                known_state.lemma_position(known_state.sp(x));
                known_state.lemma_position(known_state.op(x));
                assert(known_state.child_of(x, y));
                if a < b {
                    assert(!known_state.child_of(order@[a] as int, order@[b] as int));
                }
            }
        }
        Ok(result)
    }
}

} // verus!
