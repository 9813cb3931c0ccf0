//! A hashgraph in its simplest form: events name their parents by the
//! hexadecimal digest of their own JSON text, and ancestry and rounds are
//! computed by plain recursion over the parents.

use crate::ancestry::supermajority_threshold;
use crate::graph::RoundNum;
use crypto::digest::Digest;
use crypto::sha3::Sha3;
use std::collections::HashMap;
use vstd::prelude::*;
use vstd::string::StringExecFns;

verus! {

/// The SHA3-256 digest of a text, as lower-case hexadecimal digits.
pub uninterp spec fn sha3_256_hex(text: Seq<char>) -> Seq<char>;

/// A text as a JSON string: quoted, with the escapes of JSON.
pub uninterp spec fn json_string(text: Seq<char>) -> Seq<char>;

/// Feeds `text` to `crypto::sha3::Sha3::sha3_256()` with `input_str` and
/// returns what `result_str` gives. Nothing is proved of the digest: the
/// contract only names it.
#[verifier::external_body]
fn sha3_256_hex_digest(text: &str) -> (digest: String)
    ensures
        digest@ == sha3_256_hex(text@),
{
    let mut hasher = Sha3::sha3_256();
    hasher.input_str(text);
    hasher.result_str()
}

/// Calls `serde_json::to_string` on `text`, which writes it as a JSON
/// string. The contract only names the result.
#[verifier::external_body]
fn json_quote(text: &str) -> (quoted: String)
    ensures
        quoted@ == json_string(text@),
{
    match serde_json::to_string(text) {
        Ok(quoted) => quoted,
        Err(_) => String::new(),
    }
}

/// A transaction: nothing is known of it but that it is there.
#[derive(Clone, Copy, Debug)]
pub struct Transaction;

/// An event: the first of its creator, or one with two parents.
#[derive(Debug)]
pub enum Event {
    Update {
        creator: String,
        self_parent: String,
        other_parent: String,
        txs: Vec<Transaction>,
        witness: bool,
    },
    Genesis { creator: String },
}

/// Mathematical value of an [`Event`].
pub enum EventView {
    Update {
        creator: Seq<char>,
        self_parent: Seq<char>,
        other_parent: Seq<char>,
        txs: nat,
        witness: bool,
    },
    Genesis { creator: Seq<char> },
}

impl View for Event {
    type V = EventView;

    open spec fn view(&self) -> EventView {
        match self {
            Event::Update { creator, self_parent, other_parent, txs, witness } => EventView::Update {
                creator: creator@,
                self_parent: self_parent@,
                other_parent: other_parent@,
                txs: txs@.len(),
                witness: *witness,
            },
            Event::Genesis { creator } => EventView::Genesis { creator: creator@ },
        }
    }
}

/// The JSON text of `n` transactions, separated by commas.
pub open spec fn json_nulls(n: nat) -> Seq<char>
    decreases n,
{
    if n == 0 {
        Seq::empty()
    } else if n == 1 {
        "null"@
    } else {
        json_nulls((n - 1) as nat) + ","@ + "null"@
    }
}

/// The JSON text of an event: an object with the name of the variant as its
/// only key and the fields of the variant, in their order, as its value.
pub open spec fn event_json(event: EventView) -> Seq<char> {
    match event {
        EventView::Genesis { creator } => "{\"Genesis\":{\"creator\":"@ + json_string(creator)
            + "}}"@,
        EventView::Update { creator, self_parent, other_parent, txs, witness } => {
            "{\"Update\":{\"creator\":"@ + json_string(creator) + ",\"self_parent\":"@
                + json_string(self_parent) + ",\"other_parent\":"@ + json_string(other_parent)
                + ",\"txs\":["@ + json_nulls(txs) + "],\"witness\":"@ + (if witness {
                "true"@
            } else {
                "false"@
            }) + "}}"@
        },
    }
}

/// The digest that names an event.
pub open spec fn event_digest(event: EventView) -> Seq<char> {
    sha3_256_hex(event_json(event))
}

/// Events by the digests under which they were entered. An event with
/// parents is entered only after both of them, so that the graph has no
/// cycle.
pub struct EventGraph {
    keys: Vec<String>,
    events: Vec<Event>,
}

impl EventGraph {
    /// Number of entries.
    pub closed spec fn size(&self) -> int {
        self.keys@.len() as int
    }

    /// The key of the entry at `i`.
    pub closed spec fn key_at(&self, i: int) -> Seq<char> {
        self.keys@[i]@
    }

    /// The event of the entry at `i`.
    pub closed spec fn event_at(&self, i: int) -> EventView {
        self.events@[i]@
    }

    /// An event was entered under `key`.
    pub open spec fn present(&self, key: Seq<char>) -> bool {
        exists|i: int| 0 <= i < self.size() && #[trigger] self.key_at(i) == key
    }

    /// The position of the entry with key `key`.
    pub open spec fn pos(&self, key: Seq<char>) -> int {
        choose|i: int| 0 <= i < self.size() && #[trigger] self.key_at(i) == key
    }

    /// Both parents of `event`, if it has parents, were entered.
    pub open spec fn closed_for(&self, event: EventView) -> bool {
        event is Update ==> self.present(event->self_parent) && self.present(event->other_parent)
    }

    /// The invariant of the graph: no key was entered twice, and the parents
    /// of an entry stand before it.
    pub closed spec fn wf(&self) -> bool {
        &&& self.keys@.len() == self.events@.len()
        &&& forall|i: int, j: int|
            0 <= i < j < self.size() ==> #[trigger] self.key_at(i) != #[trigger] self.key_at(j)
        &&& forall|i: int|
            0 <= i < self.size() ==> (#[trigger] self.event_at(i) is Update ==> self.present(
                self.event_at(i)->self_parent,
            ) && self.present(self.event_at(i)->other_parent) && self.pos(
                self.event_at(i)->self_parent,
            ) < i && self.pos(self.event_at(i)->other_parent) < i)
    }

    /// One more than the later position of the parents of `event`; 0 for an
    /// event without parents.
    pub open spec fn rank(&self, event: EventView) -> nat {
        match event {
            EventView::Update { self_parent, other_parent, .. } => {
                if self.present(self_parent) && self.present(other_parent) {
                    (if self.pos(self_parent) >= self.pos(other_parent) {
                        self.pos(self_parent) + 1
                    } else {
                        self.pos(other_parent) + 1
                    }) as nat
                } else {
                    0
                }
            },
            EventView::Genesis { .. } => 0,
        }
    }

    /// The round of `event`: 1 for an event without parents, else the
    /// greater round of its parents.
    pub open spec fn round_of(&self, event: EventView) -> nat
        decreases self.rank(event),
    {
        match event {
            EventView::Update { self_parent, other_parent, .. } => {
                if self.descends(event) {
                    let a = self.round_of(self.event_at(self.pos(self_parent)));
                    let b = self.round_of(self.event_at(self.pos(other_parent)));
                    if a >= b {
                        a
                    } else {
                        b
                    }
                } else {
                    0
                }
            },
            EventView::Genesis { .. } => 1,
        }
    }

    /// The event with digest `target` is `event` or can be reached from it
    /// by parent links.
    pub open spec fn reaches(&self, event: EventView, target: Seq<char>) -> bool
        decreases self.rank(event),
    {
        event_digest(event) == target || (event is Update && self.descends(event) && (self.reaches(
            self.event_at(self.pos(event->self_parent)),
            target,
        ) || self.reaches(self.event_at(self.pos(event->other_parent)), target)))
    }

    /// The parents of the event with parents `event` were entered and have
    /// a lower rank.
    pub open spec fn descends(&self, event: EventView) -> bool {
        &&& self.present(event->self_parent)
        &&& self.present(event->other_parent)
        &&& self.rank(self.event_at(self.pos(event->self_parent))) < self.rank(event)
        &&& self.rank(self.event_at(self.pos(event->other_parent))) < self.rank(event)
    }

    /// Digests of the events with parents that can be reached from `event`
    /// by parent links without passing the event with digest `target`.
    pub open spec fn seen(&self, event: EventView, target: Seq<char>) -> Set<Seq<char>>
        decreases self.rank(event),
    {
        if event_digest(event) != target && event is Update && self.descends(event) {
            self.seen(self.event_at(self.pos(event->self_parent)), target).union(
                self.seen(self.event_at(self.pos(event->other_parent)), target),
            ).insert(event_digest(event))
        } else {
            Set::empty()
        }
    }

    /// The parents of an event of a graph have a lower rank than the event.
    pub proof fn lemma_rank(&self, event: EventView)
        requires
            self.wf(),
            self.closed_for(event),
            event is Update,
        ensures
            self.rank(self.event_at(self.pos(event->self_parent))) < self.rank(event),
            self.rank(self.event_at(self.pos(event->other_parent))) < self.rank(event),
            self.closed_for(self.event_at(self.pos(event->self_parent))),
            self.closed_for(self.event_at(self.pos(event->other_parent))),
            0 <= self.pos(event->self_parent) < self.size(),
            0 <= self.pos(event->other_parent) < self.size(),
    {
        let a = self.pos(event->self_parent);
        let b = self.pos(event->other_parent);
        assert(self.event_at(a) is Update ==> self.rank(self.event_at(a)) <= a);
        assert(self.event_at(b) is Update ==> self.rank(self.event_at(b)) <= b);
    }

    /// An empty graph.
    pub fn new() -> (graph: EventGraph)
        ensures
            graph.wf(),
            graph.size() == 0,
    {
        EventGraph { keys: Vec::new(), events: Vec::new() }
    }

    /// Number of entries.
    pub fn len(&self) -> (count: usize)
        requires
            self.wf(),
        ensures
            count == self.size(),
    {
        self.keys.len()
    }

    /// Finds the position of the entry with key `key`.
    fn position(&self, key: &String) -> (found: Option<usize>)
        requires
            self.wf(),
        ensures
            match found {
                Some(i) => self.present(key@) && i == self.pos(key@) && i < self.size(),
                None => !self.present(key@),
            },
    {
        let mut i: usize = 0;
        while i < self.keys.len()
            invariant
                i <= self.keys.len(),
                self.wf(),
                forall|k: int| 0 <= k < i ==> self.key_at(k) != key@,
            decreases self.keys.len() - i,
        {
            if self.keys[i] == *key {
                assert(self.key_at(i as int) == key@);
                return Some(i);
            }
            i = i + 1;
        }
        None
    }

    /// The event entered under `key`, if there is one.
    pub fn get(&self, key: &String) -> (found: Option<&Event>)
        requires
            self.wf(),
        ensures
            match found {
                Some(event) => self.present(key@) && event@ == self.event_at(self.pos(key@)),
                None => !self.present(key@),
            },
    {
        match self.position(key) {
            Some(i) => Some(&self.events[i]),
            None => None,
        }
    }

    /// Whether an event was entered under `key`.
    pub fn contains_key(&self, key: &String) -> (found: bool)
        requires
            self.wf(),
        ensures
            found == self.present(key@),
    {
        self.position(key).is_some()
    }

    /// Enters `event` under `key`, unless the key is taken or a parent of
    /// the event is missing. Returns whether the event was entered.
    pub fn insert(&mut self, key: String, event: Event) -> (entered: bool)
        requires
            old(self).wf(),
        ensures
            final(self).wf(),
            entered == (!old(self).present(key@) && old(self).closed_for(event@)),
            !entered ==> *final(self) == *old(self),
            entered ==> {
                &&& final(self).size() == old(self).size() + 1
                &&& final(self).key_at(old(self).size()) == key@
                &&& final(self).event_at(old(self).size()) == event@
                &&& forall|i: int|
                    0 <= i < old(self).size() ==> #[trigger] final(self).key_at(i) == old(self).key_at(i) && final(self).event_at(i) == old(self).event_at(i)
                &&& forall|other: Seq<char>| #[trigger]
                    final(self).present(other) <==> old(self).present(other) || other == key@
            },
    {
        if self.contains_key(&key) {
            return false;
        }
        let parents_present = match &event {
            Event::Update { self_parent, other_parent, .. } => self.contains_key(self_parent)
                && self.contains_key(other_parent),
            Event::Genesis { .. } => true,
        };
        if !parents_present {
            return false;
        }
        let ghost n = self.size();
        self.keys.push(key);
        self.events.push(event);
        proof {
            assert forall|i: int| 0 <= i < n implies #[trigger] self.key_at(i) == old(self).key_at(i)
                && self.event_at(i) == old(self).event_at(i) by {}
            assert forall|other: Seq<char>| #[trigger] old(self).present(other) implies self.present(
                other,
            ) && self.pos(other) == old(self).pos(other) by {
                let i = old(self).pos(other);
                assert(self.key_at(i) == other);
            }
            assert forall|other: Seq<char>| #[trigger] self.present(other) implies old(self).present(other) || other == key@ by {
                let i = self.pos(other);
                if i < n {
                    assert(old(self).key_at(i) == other);
                }
            }
            assert(self.key_at(n) == key@);
            assert forall|i: int| 0 <= i < self.size() && #[trigger] self.event_at(i) is Update implies
                self.present(self.event_at(i)->self_parent) && self.present(
                self.event_at(i)->other_parent,
            ) && self.pos(self.event_at(i)->self_parent) < i && self.pos(
                self.event_at(i)->other_parent,
            ) < i by {
                if i < n {
                    assert(old(self).event_at(i) == self.event_at(i));
                }
                if self.event_at(i) is Update {
                    assert(old(self).present(self.event_at(i)->self_parent));
                    assert(old(self).present(self.event_at(i)->other_parent));
                }
            }
        }
        true
    }
}

/// A graph of events and the number of peers that write them.
pub struct Context {
    pub events: EventGraph,
    pub num_nodes: usize,
}

impl Event {
    /// The round of the event: 1 for a genesis, else the greater round of
    /// its parents. The rounds in `event_rounds` are not read.
    pub fn determine_round(
        &self,
        events: &EventGraph,
        event_rounds: &HashMap<String, RoundNum>,
    ) -> (round: RoundNum)
        requires
            events.wf(),
            events.closed_for(self@),
        ensures
            round == events.round_of(self@),
        decreases events.rank(self@),
    {
        match self {
            Event::Genesis { .. } => 1,
            Event::Update { creator, self_parent, other_parent, txs, witness } => {
                proof {
                    events.lemma_rank(self@);
                }
                let sp_event = events.get(self_parent).unwrap();
                let op_event = events.get(other_parent).unwrap();
                let a = sp_event.determine_round(events, event_rounds);
                let b = op_event.determine_round(events, event_rounds);
                if a >= b {
                    a
                } else {
                    b
                }
            },
        }
    }

    /// The JSON text of the event.
    pub fn json(&self) -> (text: String)
        ensures
            text@ == event_json(self@),
    {
        match self {
            Event::Genesis { creator } => {
                let mut text = String::from_str("{\"Genesis\":{\"creator\":");
                text.append(json_quote(creator.as_str()).as_str());
                text.append("}}");
                text
            },
            Event::Update { creator, self_parent, other_parent, txs, witness } => {
                let mut text = String::from_str("{\"Update\":{\"creator\":");
                text.append(json_quote(creator.as_str()).as_str());
                text.append(",\"self_parent\":");
                text.append(json_quote(self_parent.as_str()).as_str());
                text.append(",\"other_parent\":");
                text.append(json_quote(other_parent.as_str()).as_str());
                text.append(",\"txs\":[");
                let ghost head = text@;
                let mut k: usize = 0;
                while k < txs.len()
                    invariant
                        k <= txs@.len(),
                        text@ == head + json_nulls(k as nat),
                    decreases txs.len() - k,
                {
                    if k > 0 {
                        text.append(",");
                    }
                    text.append("null");
                    proof {
                        assert(text@ =~= head + json_nulls((k + 1) as nat));
                    }
                    k = k + 1;
                }
                text.append("],\"witness\":");
                if *witness {
                    text.append("true");
                } else {
                    text.append("false");
                }
                text.append("}}");
                proof {
                    assert(text@ =~= event_json(self@));
                }
                text
            },
        }
    }

    /// The digest that names the event: the SHA3-256 digest of its JSON
    /// text, in hexadecimal digits.
    pub fn hash(&self) -> (digest: String)
        ensures
            digest@ == event_digest(self@),
    {
        let serialized = self.json();
        sha3_256_hex_digest(serialized.as_str())
    }

    /// True if `x` can reach `y` by following 0 or more parent edges.
    pub fn ancestor(x: &Event, y: &Event, events: &EventGraph) -> (found: bool)
        requires
            events.wf(),
            events.closed_for(x@),
        ensures
            found == events.reaches(x@, event_digest(y@)),
        decreases events.rank(x@),
    {
        if x.hash() == y.hash() {
            true
        } else {
            match x {
                Event::Update { creator, self_parent, other_parent, txs, witness } => {
                    proof {
                        events.lemma_rank(x@);
                    }
                    Event::ancestor(events.get(self_parent).unwrap(), y, events) || Event::ancestor(
                        events.get(other_parent).unwrap(),
                        y,
                        events,
                    )
                },
                Event::Genesis { .. } => false,
            }
        }
    }

    /// True if `y` is an ancestor of `x`.
    pub fn see(x: &Event, y: &Event, events: &EventGraph) -> (seen: bool)
        requires
            events.wf(),
            events.closed_for(x@),
        ensures
            seen == events.reaches(x@, event_digest(y@)),
    {
        Event::ancestor(x, y, events)
    }

    /// True if `x` has parents, is not `y`, and at least `2n/3` (rounded
    /// down) events with parents can be reached from `x` without passing
    /// `y`, where `n` is the number of peers.
    pub fn strongly_see(x: &Event, y: &Event, context: &Context) -> (strongly: bool)
        requires
            context.events.wf(),
            context.events.closed_for(x@),
        ensures
            strongly == (x@ is Update && event_digest(x@) != event_digest(y@)
                && context.events.seen(x@, event_digest(y@)).len() >= (2 * context.num_nodes) / 3),
    {
        let mut creators_seen: Vec<String> = Vec::new();
        proof {
            assert(creators_seen.deep_view() =~= Seq::<Seq<char>>::empty());
            assert(creators_seen.deep_view().to_set() =~= Set::<Seq<char>>::empty());
        }
        let strongly = Event::strongly_see_aux(x, y, context, &mut creators_seen);
        proof {
            assert(Set::<Seq<char>>::empty().union(context.events.seen(x@, event_digest(y@)))
                =~= context.events.seen(x@, event_digest(y@)));
            creators_seen.deep_view().unique_seq_to_set();
        }
        strongly
    }

    /// Adds to `creators_seen` the digests of the events with parents that
    /// can be reached from `x` without passing `y`, and tells whether `x` is
    /// such an event and `creators_seen` then holds at least `2n/3` digests.
    pub fn strongly_see_aux(
        x: &Event,
        y: &Event,
        context: &Context,
        creators_seen: &mut Vec<String>,
    ) -> (strongly: bool)
        requires
            context.events.wf(),
            context.events.closed_for(x@),
            old(creators_seen).deep_view().no_duplicates(),
        ensures
            final(creators_seen).deep_view().no_duplicates(),
            final(creators_seen).deep_view().to_set() == old(creators_seen).deep_view().to_set().union(
                context.events.seen(x@, event_digest(y@)),
            ),
            strongly == (x@ is Update && event_digest(x@) != event_digest(y@) && final(creators_seen).deep_view().len() >= (2 * context.num_nodes) / 3),
        decreases context.events.rank(x@),
    {
        let ghost target = event_digest(y@);
        let ghost before = creators_seen.deep_view().to_set();
        match x {
            Event::Update { creator, self_parent, other_parent, txs, witness } => {
                let digest = x.hash();
                if digest != y.hash() {
                    proof {
                        context.events.lemma_rank(x@);
                    }
                    insert_once(creators_seen, digest);
                    Event::strongly_see_aux(
                        context.events.get(self_parent).unwrap(),
                        y,
                        context,
                        creators_seen,
                    );
                    Event::strongly_see_aux(
                        context.events.get(other_parent).unwrap(),
                        y,
                        context,
                        creators_seen,
                    );
                    proof {
                        let a = context.events.seen(
                            context.events.event_at(context.events.pos(self_parent@)),
                            target,
                        );
                        let b = context.events.seen(
                            context.events.event_at(context.events.pos(other_parent@)),
                            target,
                        );
                        assert(before.insert(event_digest(x@)).union(a).union(b) =~= before.union(
                            a.union(b).insert(event_digest(x@)),
                        ));
                    }
                    creators_seen.len() >= supermajority_threshold(context.num_nodes)
                } else {
                    proof {
                        assert(before.union(Set::<Seq<char>>::empty()) =~= before);
                    }
                    false
                }
            },
            Event::Genesis { .. } => {
                proof {
                    assert(before.union(Set::<Seq<char>>::empty()) =~= before);
                }
                false
            },
        }
    }
}

/// Adds `text` to `texts` unless it is there.
pub fn insert_once(texts: &mut Vec<String>, text: String)
    requires
        old(texts).deep_view().no_duplicates(),
    ensures
        final(texts).deep_view().no_duplicates(),
        final(texts).deep_view().to_set() == old(texts).deep_view().to_set().insert(text@),
{
    let ghost before = texts.deep_view();
    let mut i: usize = 0;
    while i < texts.len()
        invariant
            i <= texts.len(),
            texts.deep_view() == before,
            before.no_duplicates(),
            forall|k: int| 0 <= k < i ==> before[k] != text@,
        decreases texts.len() - i,
    {
        if texts[i] == text {
            proof {
                assert(before[i as int] == text@);
                assert(before.to_set().contains(text@));
                assert(before.to_set().insert(text@) =~= before.to_set());
            }
            return ;
        }
        i = i + 1;
    }
    texts.push(text);
    proof {
        let after = texts.deep_view();
        assert(after =~= before.push(text@));
        assert forall|s: Seq<char>| after.to_set().contains(s) <==> before.to_set().insert(
            text@,
        ).contains(s) by {
            if after.contains(s) {
                let k = choose|k: int| 0 <= k < after.len() && after[k] == s;
                if k < before.len() {
                    assert(before[k] == s);
                }
            }
            if before.contains(s) {
                let k = choose|k: int| 0 <= k < before.len() && before[k] == s;
                assert(after[k] == s);
            }
            if s == text@ {
                assert(after[after.len() - 1] == s);
            }
        }
        assert(after.to_set() =~= before.to_set().insert(text@));
    }
}

} // verus!
