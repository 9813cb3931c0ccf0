use std::collections::HashSet;

use hashgraph::event::{Kind, PeerId, SignedEvent};
use hashgraph::graph::{Graph, PushKind};
use hashgraph::hash;
use hashgraph::sync::{Error, Jobs};

fn key(h: &hash::Hash) -> [u8; 64] {
    h.into_array()
}

/// Three peers; returns the graph and the digests in the order of admission:
/// g0 g1 g2 a b c d, where
///   a = (peer 0, other parent g1), b = (peer 1, other parent a),
///   c = (peer 2, other parent b), d = (peer 0, other parent c).
fn small_graph() -> (Graph, Vec<hash::Hash>) {
    let mut graph = Graph::new(0, vec![7], 5);
    let g0 = *graph.peer_genesis(&0).unwrap();
    let g1 = graph.push_node(vec![7], PushKind::Genesis, 1).unwrap();
    let g2 = graph.push_node(vec![7], PushKind::Genesis, 2).unwrap();
    let a = graph.push_node(vec![1], PushKind::Regular(g1), 0).unwrap();
    let b = graph.push_node(vec![2], PushKind::Regular(a), 1).unwrap();
    let c = graph.push_node(vec![3], PushKind::Regular(b), 2).unwrap();
    let d = graph.push_node(vec![4], PushKind::Regular(c), 0).unwrap();
    (graph, vec![g0, g1, g2, a, b, c, d])
}

fn parents(event: &SignedEvent) -> Vec<hash::Hash> {
    match event.unsigned().fields().kind() {
        Kind::Genesis(_) => vec![],
        Kind::Regular(parents) => vec![parents.self_parent, parents.other_parent],
    }
}

fn assert_parents_first(jobs: &Jobs) {
    let events = jobs.as_linear();
    for (at, event) in events.iter().enumerate() {
        for parent in parents(event) {
            if let Some(parent_at) = events.iter().position(|e| e.hash() == &parent) {
                assert!(parent_at < at, "a parent stands after its child");
            }
        }
    }
}

fn digests(jobs: &Jobs) -> Vec<[u8; 64]> {
    jobs.as_linear().iter().map(|e| key(e.hash())).collect()
}

fn generate(
    graph: &Graph,
    known: &HashSet<[u8; 64]>,
    tips: &Vec<hash::Hash>,
) -> Result<Jobs, Error> {
    Jobs::generate(
        graph,
        |h: &hash::Hash| known.contains(&key(h)),
        tips,
        |h: &hash::Hash| graph.signed_event(h).cloned(),
    )
}

#[test]
fn sync_sends_everything_to_a_peer_that_knows_nothing() {
    let (graph, all) = small_graph();
    let tips = graph.tips();
    assert_eq!(tips.len(), 1);
    assert!(tips[0] == all[6]);
    let jobs = generate(&graph, &HashSet::new(), &tips).unwrap();
    assert_eq!(jobs.as_linear().len(), 7);
    assert_eq!(
        digests(&jobs).into_iter().collect::<HashSet<_>>(),
        all.iter().map(key).collect::<HashSet<_>>()
    );
    assert_parents_first(&jobs);
    // the reverse of the order of the visits: d, c, g2, b, a, g0, g1
    assert_eq!(
        digests(&jobs),
        [all[1], all[0], all[3], all[4], all[2], all[5], all[6]]
            .iter()
            .map(key)
            .collect::<Vec<_>>()
    );
    // the tip comes last and a genesis first
    assert!(jobs.as_linear()[6].hash() == &all[6]);
    assert!(parents(&jobs.as_linear()[0]).is_empty());
    // the events are those of the graph
    for event in jobs.as_linear() {
        assert!(graph.signed_event(event.hash()).unwrap().hash() == event.hash());
        assert_eq!(
            graph.event(event.hash()).unwrap(),
            event.unsigned().fields().user_payload()
        );
    }
    let linear = jobs.into_linear();
    assert_eq!(linear.len(), 7);
}

#[test]
fn sync_sends_what_the_peer_does_not_know() {
    let (graph, all) = small_graph();
    // the peer knows b and all its ancestors: g0 g1 a b
    let known: HashSet<[u8; 64]> = [all[0], all[1], all[3], all[4]].iter().map(key).collect();
    let jobs = generate(&graph, &known, &graph.tips()).unwrap();
    // g2 c d, each after its parents
    assert_eq!(digests(&jobs), vec![key(&all[2]), key(&all[5]), key(&all[6])]);
    assert_parents_first(&jobs);
}

#[test]
fn sync_of_two_tips() {
    // two tips: d of peer 0 and e of peer 1, which both descend from c
    let (mut graph, mut all) = small_graph();
    let e = graph
        .push_node(vec![5], PushKind::Regular(all[5]), 1)
        .unwrap();
    all.push(e);
    let tips = graph.tips();
    assert_eq!(tips.len(), 2);
    assert_eq!(
        tips.iter().map(key).collect::<HashSet<_>>(),
        [all[6], all[7]].iter().map(key).collect::<HashSet<_>>()
    );
    // K: the geneses and a
    let known: HashSet<[u8; 64]> = [all[0], all[1], all[2], all[3]].iter().map(key).collect();
    let jobs = generate(&graph, &known, &tips).unwrap();
    // exactly ancestors(d, e) \ K = b c d e
    assert_eq!(
        digests(&jobs).into_iter().collect::<HashSet<_>>(),
        [all[4], all[5], all[6], all[7]]
            .iter()
            .map(key)
            .collect::<HashSet<_>>()
    );
    assert_eq!(jobs.as_linear().len(), 4);
    assert_parents_first(&jobs);
    assert!(jobs.as_linear()[0].hash() == &all[4]);
    assert!(jobs.as_linear()[1].hash() == &all[5]);
    // with one tip only, what descends to the other tip is held back
    let jobs = generate(&graph, &known, &vec![all[6]]).unwrap();
    assert_eq!(digests(&jobs), vec![key(&all[6])]);
}

#[test]
fn sync_of_a_peer_that_knows_everything_is_empty() {
    let (graph, all) = small_graph();
    let known: HashSet<[u8; 64]> = all.iter().map(key).collect();
    let jobs = generate(&graph, &known, &graph.tips()).unwrap();
    assert!(jobs.as_linear().is_empty());
    // no tips, no jobs
    let jobs = generate(&graph, &HashSet::new(), &vec![]).unwrap();
    assert!(jobs.as_linear().is_empty());
}

#[test]
fn sync_skips_tips_that_have_children_and_takes_tips_twice() {
    let (graph, all) = small_graph();
    // c has a child: it is no source, and nothing descends from it to a tip
    let jobs = generate(&graph, &HashSet::new(), &vec![all[5]]).unwrap();
    assert!(jobs.as_linear().is_empty());
    // the same tip twice is visited once
    let jobs = generate(&graph, &HashSet::new(), &vec![all[6], all[6]]).unwrap();
    assert_eq!(jobs.as_linear().len(), 7);
    assert_parents_first(&jobs);
}

#[test]
fn sync_holds_back_the_ancestors_of_known_events() {
    let (graph, all) = small_graph();
    // the peer knows c but not its ancestors: what c descends from is held
    // back, since a peer that knows an event is taken to know its ancestors
    let known: HashSet<[u8; 64]> = [all[5]].iter().map(key).collect();
    let jobs = generate(&graph, &known, &graph.tips()).unwrap();
    assert_eq!(digests(&jobs), vec![key(&all[6])]);
}

#[test]
fn sync_incorrect_tip() {
    let (graph, all) = small_graph();
    let stranger = SignedEvent::new_fakely_signed(vec![], Kind::Genesis(vec![]), 99, 0);
    let missing: hash::Hash = *stranger.hash();
    let result = generate(&graph, &HashSet::new(), &vec![all[6], missing, all[5]]);
    assert!(matches!(result, Err(Error::IncorrectTip(h)) if h == missing));
}

#[test]
fn sync_unknown_event() {
    let (graph, all) = small_graph();
    let hidden = all[4];
    let result = Jobs::generate(
        &graph,
        |_h: &hash::Hash| false,
        &graph.tips(),
        |h: &hash::Hash| {
            if *h == hidden {
                None
            } else {
                graph.signed_event(h).cloned()
            }
        },
    );
    assert!(matches!(result, Err(Error::UnknownEvent(h)) if h == hidden));
}

#[test]
fn sync_of_a_graph_with_one_event() {
    let graph = Graph::new(3 as PeerId, vec![1, 2, 3], 2);
    let tips = graph.tips();
    assert_eq!(tips.len(), 1);
    let jobs = generate(&graph, &HashSet::new(), &tips).unwrap();
    assert_eq!(jobs.as_linear().len(), 1);
    assert!(jobs.as_linear()[0].hash() == graph.peer_genesis(&3).unwrap());
    assert_eq!(
        jobs.as_linear()[0].unsigned().fields().user_payload(),
        &vec![1, 2, 3]
    );
}
