use std::collections::{HashMap, HashSet};

use hashgraph::ancestry::supermajority_threshold;
use hashgraph::event::{Kind, PeerId, SignedEvent};
use hashgraph::graph::{Graph, NotWitness, PushError, PushKind, WitnessFamousness};
use hashgraph::hash;

fn unit_payload() -> Vec<u8> {
    bincode::serialize(&()).unwrap()
}

fn int_payload(value: i32) -> Vec<u8> {
    bincode::serialize(&value).unwrap()
}

fn key(h: &hash::Hash) -> [u8; 64] {
    h.into_array()
}

// for more concise tests
fn add_event(
    graph: &mut Graph,
    author: PeerId,
    other_parent: hash::Hash,
    payload: Vec<u8>,
) -> Result<hash::Hash, PushError> {
    graph.push_node(payload, PushKind::Regular(other_parent), author)
}

struct PeerEvents {
    id: PeerId,
    events: Vec<hash::Hash>,
}

// Graph, Events by each peer, Test event names (for easier reading)
type TestCase = (
    Graph,
    HashMap<&'static str, PeerEvents>,
    HashMap<[u8; 64], &'static str>,
);

/// Add multiple events in the graph.
/// `events` is list of tuples (event_name, author_name, other_parent_name)
///
/// `other_parent_name` is either `event_name` of one of the previous entries
/// or name of peer for its genesis
fn add_events(
    graph: &mut Graph,
    events: &[(&'static str, &'static str, &'static str)],
    author_ids: HashMap<&'static str, PeerId>,
    payload: &[u8],
) -> Result<
    (
        HashMap<&'static str, PeerEvents>,
        HashMap<[u8; 64], &'static str>, // hash -> event_name
    ),
    PushError,
> {
    let mut inserted_events: HashMap<&'static str, hash::Hash> =
        HashMap::with_capacity(events.len());
    let mut peers_events: HashMap<&str, PeerEvents> = author_ids
        .keys()
        .map(|name| {
            let id = *author_ids
                .get(name)
                .expect(&format!("Unknown author name '{}'", name));
            let genesis = graph.peer_genesis(&id).expect(&format!(
                "Unknown author id to graph '{}' (name {})",
                id, name
            ));
            (
                *name,
                PeerEvents {
                    id,
                    events: vec![genesis.clone()],
                },
            )
        })
        .collect();

    for (event_name, author, other_parent) in events {
        let other_parent_event_hash = match author_ids.get(other_parent) {
            Some(h) => *graph.peer_genesis(h).expect(&format!(
                "Unknown peer id {} to graph (name '{}')",
                h, author
            )),
            None => *inserted_events
                .get(other_parent)
                .expect(&format!("Unknown `other_parent` '{}'", other_parent)),
        };
        let author_id = author_ids
            .get(author)
            .expect(&format!("Unknown author name '{}'", author));
        let new_event_hash = add_event(
            graph,
            *author_id,
            other_parent_event_hash,
            payload.to_vec(),
        )?;
        peers_events
            .get_mut(author)
            .expect("Just checked presence")
            .events
            .push(new_event_hash.clone());
        let clashed_event = inserted_events.insert(event_name, new_event_hash);
        if clashed_event.is_some() {
            panic!("Event name clash '{}'", event_name)
        }
    }
    let names = inserted_events
        .into_iter()
        .map(|(a, b)| (key(&b), a))
        .collect();
    Ok((peers_events, names))
}

fn add_geneses(
    graph: &mut Graph,
    this_author: &str,
    author_ids: &HashMap<&'static str, PeerId>,
    payload: &[u8],
) -> Result<HashMap<[u8; 64], &'static str>, PushError> {
    let mut names = HashMap::with_capacity(author_ids.len());

    for (&name, id) in author_ids {
        let hash = if name == this_author {
            graph.peer_genesis(id).expect("Mush have own genesis").clone()
        } else {
            graph.push_node(payload.to_vec(), PushKind::Genesis, *id)?
        };
        names.insert(key(&hash), name);
    }
    Ok(names)
}

fn build_graph_from_paper(payload: &[u8], coin_frequency: usize) -> Result<TestCase, PushError> {
    let author_ids = HashMap::from([("a", 0), ("b", 1), ("c", 2), ("d", 3), ("e", 4)]);
    let mut graph = Graph::new(
        *author_ids.get("a").unwrap(),
        payload.to_vec(),
        coin_frequency,
    );
    let mut names = add_geneses(&mut graph, "a", &author_ids, payload)?;
    let events = [
        //  (name, peer, other_parent)
        ("c2", "c", "d"),
        ("e2", "e", "b"),
        ("b2", "b", "c2"),
        ("c3", "c", "e2"),
        ("d2", "d", "c3"),
        ("a2", "a", "b2"),
        ("b3", "b", "c3"),
        ("c4", "c", "d2"),
        ("a3", "a", "b3"),
        ("c5", "c", "e2"),
        ("c6", "c", "a3"),
    ];
    let (peers_events, new_names) = add_events(&mut graph, &events, author_ids, payload)?;
    names.extend(new_names);
    Ok((graph, peers_events, names))
}

fn build_graph_some_chain(payload: &[u8], coin_frequency: usize) -> Result<TestCase, PushError> {
    /* Generates the following graph for each member (c1,c2,c3)
     *
        |  o__|  -- e7
        |__|__o  -- e6
        o__|  |  -- e5
        |  o__|  -- e4
        |  |__o  -- e3
        |__o  |  -- e2
        o__|  |  -- e1
        o  o  o  -- (g1,g2,g3)
    */
    let author_ids = HashMap::from([("g1", 0), ("g2", 1), ("g3", 2)]);
    let mut graph = Graph::new(
        *author_ids.get("g1").unwrap(),
        payload.to_vec(),
        coin_frequency,
    );
    let mut names = add_geneses(&mut graph, "g1", &author_ids, payload)?;
    let events = [
        //  (name, peer, other_parent)
        ("e1", "g1", "g2"),
        ("e2", "g2", "e1"),
        ("e3", "g3", "e2"),
        ("e4", "g2", "e3"),
        ("e5", "g1", "e4"),
        ("e6", "g3", "e5"),
        ("e7", "g2", "e6"),
    ];
    let (peers_events, new_names) = add_events(&mut graph, &events, author_ids, payload)?;
    names.extend(new_names);
    Ok((graph, peers_events, names))
}

fn build_graph_detailed_example(
    payload: &[u8],
    coin_frequency: usize,
) -> Result<TestCase, PushError> {
    let author_ids = HashMap::from([("a", 0), ("b", 1), ("c", 2), ("d", 3)]);
    let mut graph = Graph::new(
        *author_ids.get("a").unwrap(),
        payload.to_vec(),
        coin_frequency,
    );
    let mut names = add_geneses(&mut graph, "a", &author_ids, payload)?;
    let events = [
        //  (name,  peer, other_parent)
        // round 1
        ("d1_1", "d", "b"),
        ("b1_1", "b", "d1_1"),
        ("d1_2", "d", "b1_1"),
        ("b1_2", "b", "c"),
        ("a1_1", "a", "b1_1"),
        ("d1_3", "d", "b1_2"),
        ("c1_1", "c", "b1_2"),
        ("b1_3", "b", "d1_3"),
        // round 2
        ("d2", "d", "a1_1"),
        ("a2", "a", "d2"),
        ("b2", "b", "d2"),
        ("a2_1", "a", "c1_1"),
        ("c2", "c", "a2_1"),
        ("d2_1", "d", "b2"),
        ("a2_2", "a", "b2"),
        ("d2_2", "d", "a2_2"),
        ("b2_1", "b", "a2_2"),
        // round 3
        ("b3", "b", "d2_2"),
        ("a3", "a", "b3"),
        ("d3", "d", "b3"),
        ("d3_1", "d", "c2"),
        ("c3", "c", "d3_1"),
        ("b3_1", "b", "a3"),
        ("b3_2", "b", "a3"),
        ("a3_1", "a", "b3_2"),
        ("b3_3", "b", "d3_1"),
        ("a3_2", "a", "b3_3"),
        ("b3_4", "b", "a3_2"),
        ("d3_2", "d", "b3_3"),
        // round 4
        ("d4", "d", "c3"),
        ("b4", "b", "d4"),
    ];
    let (peers_events, new_names) = add_events(&mut graph, &events, author_ids, payload)?;
    names.extend(new_names);
    Ok((graph, peers_events, names))
}

// Test simple work + errors

#[test]
fn graph_builds() {
    build_graph_from_paper(&unit_payload(), 999).unwrap();
    build_graph_some_chain(&unit_payload(), 999).unwrap();
    build_graph_detailed_example(&unit_payload(), 999).unwrap();
}

#[test]
fn duplicate_push_fails() {
    let (mut graph, peers, _names) = build_graph_from_paper(&unit_payload(), 15).unwrap();
    let a_id = peers.get("a").unwrap().id;
    assert!(matches!(
        graph.push_node(unit_payload(), PushKind::Genesis, a_id),
        Err(PushError::NodeAlreadyExists(hash)) if &hash == graph.peer_genesis(&a_id).unwrap()
    ));
}

#[test]
fn double_genesis_fails() {
    let (mut graph, peers, _names) = build_graph_from_paper(&int_payload(0), 15).unwrap();
    assert!(matches!(
        graph.push_node(int_payload(1), PushKind::Genesis, peers.get("a").unwrap().id),
        Err(PushError::GenesisAlreadyExists)
    ))
}

#[test]
fn missing_parent_fails() {
    let (mut graph, peers, _names) = build_graph_from_paper(&unit_payload(), 15).unwrap();
    let fake_node =
        SignedEvent::new_fakely_signed(unit_payload(), Kind::Genesis(Vec::new()), 1232423, 0);
    assert!(matches!(
        add_event(&mut graph, peers.get("a").unwrap().id, fake_node.hash().clone(), unit_payload()),
        Err(PushError::NoParent(fake_hash)) if &fake_hash == fake_node.hash()
    ))
}

// Test graph properties

#[test]
fn graph_test_ancestor() {
    let (graph, peers, _names) = build_graph_some_chain(&unit_payload(), 15).unwrap();

    assert!(graph.ancestor(
        &peers.get("g1").unwrap().events[1],
        &peers.get("g1").unwrap().events[0]
    ));

    let (graph, peers, _names) = build_graph_from_paper(&unit_payload(), 15).unwrap();
    assert!(graph.ancestor(
        &peers.get("c").unwrap().events[5],
        &peers.get("b").unwrap().events[0],
    ));

    assert!(graph.ancestor(
        &peers.get("a").unwrap().events[2],
        &peers.get("e").unwrap().events[1],
    ));

    let (graph, peers, names) = build_graph_detailed_example(&unit_payload(), 999).unwrap();
    let test_cases = [
        (
            false,
            vec![
                (
                    &peers.get("c").unwrap().events[0],
                    &peers.get("c").unwrap().events[1],
                ),
                (
                    &peers.get("c").unwrap().events[0],
                    &peers.get("c").unwrap().events[3],
                ),
                (
                    &peers.get("c").unwrap().events[0],
                    &peers.get("b").unwrap().events[2],
                ),
                (
                    &peers.get("c").unwrap().events[1],
                    &peers.get("d").unwrap().events[3],
                ),
                (
                    &peers.get("a").unwrap().events[2],
                    &peers.get("c").unwrap().events[1],
                ),
            ],
        ),
        (
            true,
            vec![
                (
                    // Self parent
                    &peers.get("d").unwrap().events[1],
                    &peers.get("d").unwrap().events[0],
                ),
                (
                    // Self ancestor
                    &peers.get("d").unwrap().events[4],
                    &peers.get("d").unwrap().events[0],
                ),
                (
                    // Ancestry is reflective
                    &peers.get("c").unwrap().events[1],
                    &peers.get("c").unwrap().events[1],
                ),
                (
                    // Other parent
                    &peers.get("b").unwrap().events[3],
                    &peers.get("d").unwrap().events[3],
                ),
                (
                    &peers.get("c").unwrap().events[2],
                    &peers.get("a").unwrap().events[2],
                ),
                (
                    &peers.get("b").unwrap().events[3],
                    &peers.get("c").unwrap().events[0],
                ),
                (
                    &peers.get("d").unwrap().events[3],
                    &peers.get("c").unwrap().events[0],
                ),
                (
                    &peers.get("d").unwrap().events[6],
                    &peers.get("a").unwrap().events[2],
                ),
                (
                    &peers.get("b").unwrap().events[6],
                    &peers.get("a").unwrap().events[2],
                ),
                (
                    &peers.get("a").unwrap().events[4],
                    &peers.get("a").unwrap().events[2],
                ),
            ],
        ),
    ];
    for (result, cases) in test_cases {
        for (e1, e2) in cases {
            let actual_result = graph.ancestor(e1, e2);
            let (e1_name, e2_name) = (
                names.get(&key(e1)).unwrap(),
                names.get(&key(e2)).unwrap(),
            );
            assert_eq!(
                result, actual_result,
                "expected ancestor({},{}) to be {}, but it is {}.",
                e1_name, e2_name, result, actual_result
            )
        }
    }
}

#[test]
fn test_ancestor_iter() {
    let (graph, peers, names) = build_graph_detailed_example(&unit_payload(), 999).unwrap();
    // (Iterator, Actual ancestors to compare with)
    let cases = vec![
        (
            graph.iter(&peers.get("b").unwrap().events[3]).unwrap(),
            HashSet::<[u8; 64]>::from_iter(
                [
                    &peers.get("b").unwrap().events[0..4],
                    &peers.get("c").unwrap().events[0..1],
                    &peers.get("d").unwrap().events[0..4],
                ]
                .concat()
                .into_iter()
                .map(|h| key(&h)),
            ),
        ),
        (
            graph.iter(&peers.get("b").unwrap().events[6]).unwrap(),
            HashSet::<[u8; 64]>::from_iter(
                [
                    &peers.get("a").unwrap().events[0..5],
                    &peers.get("b").unwrap().events[0..7],
                    &peers.get("c").unwrap().events[0..2],
                    &peers.get("d").unwrap().events[0..7],
                ]
                .concat()
                .into_iter()
                .map(|h| key(&h)),
            ),
        ),
    ];
    for (mut iter, ancestors) in cases {
        let mut ancestors_from_iter = HashSet::<[u8; 64]>::new();
        let mut handed_out = 0;
        while let Some(e) = iter.next() {
            ancestors_from_iter.insert(key(e.hash()));
            handed_out += 1;
        }
        assert_eq!(handed_out, ancestors_from_iter.len());
        assert_eq!(
            ancestors,
            ancestors_from_iter,
            "Iterator did not find ancestors {:?}\n and it went through excess events: {:?}",
            ancestors
                .difference(&ancestors_from_iter)
                .map(|h| names.get(h).unwrap())
                .collect::<Vec<_>>(),
            ancestors_from_iter
                .difference(&ancestors)
                .map(|h| names.get(h).unwrap())
                .collect::<Vec<_>>()
        );
    }
}

#[test]
fn graph_test_strongly_see() {
    let (graph, peers, _names) = build_graph_some_chain(&unit_payload(), 15).unwrap();

    assert!(!graph.strongly_see(
        &peers.get("g1").unwrap().events[1],
        &peers.get("g1").unwrap().events[0],
    ));
    assert!(graph.strongly_see(
        &peers.get("g2").unwrap().events[2],
        &peers.get("g1").unwrap().events[0],
    ));

    let (graph, peers, _names) = build_graph_from_paper(&unit_payload(), 15).unwrap();
    assert!(graph.strongly_see(
        &peers.get("c").unwrap().events[5],
        &peers.get("d").unwrap().events[0],
    ));

    let (graph, peers, names) = build_graph_detailed_example(&unit_payload(), 999).unwrap();
    let test_cases = [
        (
            false,
            vec![
                (
                    &peers.get("d").unwrap().events[0],
                    &peers.get("d").unwrap().events[0],
                ),
                (
                    &peers.get("d").unwrap().events[3],
                    &peers.get("d").unwrap().events[0],
                ),
                (
                    &peers.get("d").unwrap().events[3],
                    &peers.get("b").unwrap().events[0],
                ),
                (
                    &peers.get("b").unwrap().events[2],
                    &peers.get("c").unwrap().events[0],
                ),
                (
                    &peers.get("a").unwrap().events[0],
                    &peers.get("b").unwrap().events[0],
                ),
                (
                    &peers.get("a").unwrap().events[1],
                    &peers.get("c").unwrap().events[0],
                ),
            ],
        ),
        (
            true,
            vec![
                (
                    &peers.get("d").unwrap().events[4],
                    &peers.get("d").unwrap().events[0],
                ),
                (
                    &peers.get("d").unwrap().events[4],
                    &peers.get("b").unwrap().events[0],
                ),
                (
                    &peers.get("b").unwrap().events[3],
                    &peers.get("c").unwrap().events[0],
                ),
                (
                    &peers.get("a").unwrap().events[1],
                    &peers.get("b").unwrap().events[0],
                ),
                (
                    &peers.get("a").unwrap().events[3],
                    &peers.get("c").unwrap().events[0],
                ),
                (
                    // Did not find for round calculation once
                    &peers.get("b").unwrap().events[6],
                    &peers.get("a").unwrap().events[2],
                ),
            ],
        ),
    ];
    for (result, cases) in test_cases {
        for (e1, e2) in cases {
            let (e1_name, e2_name) = (
                names.get(&key(e1)).unwrap(),
                names.get(&key(e2)).unwrap(),
            );
            let actual_result = graph.strongly_see(e1, e2);
            assert_eq!(
                result, actual_result,
                "expected strongly_see({},{}) to be {}, but it is {}.",
                e1_name, e2_name, result, actual_result
            )
        }
    }
}

#[test]
fn test_determine_round() {
    let mut cases = vec![];
    let (graph, peers, names) = build_graph_some_chain(&unit_payload(), 999).unwrap();
    let round_cases = vec![
        (
            0,
            [
                &peers.get("g1").unwrap().events[0..2],
                &peers.get("g2").unwrap().events[0..3],
                &peers.get("g3").unwrap().events[0..2],
            ]
            .concat(),
        ),
        (
            1,
            [
                &peers.get("g1").unwrap().events[2..3],
                &peers.get("g2").unwrap().events[3..4],
                &peers.get("g3").unwrap().events[2..3],
            ]
            .concat(),
        ),
    ];
    cases.push(((graph, names), "build_graph_some_chain", round_cases));
    let (graph, peers, names) = build_graph_detailed_example(&unit_payload(), 999).unwrap();
    let round_cases = vec![
        (
            0,
            [
                &peers.get("a").unwrap().events[0..2],
                &peers.get("b").unwrap().events[0..4],
                &peers.get("c").unwrap().events[0..2],
                &peers.get("d").unwrap().events[0..4],
            ]
            .concat(),
        ),
        (
            1,
            [
                &peers.get("a").unwrap().events[2..5],
                &peers.get("b").unwrap().events[4..6],
                &peers.get("c").unwrap().events[2..3],
                &peers.get("d").unwrap().events[4..7],
            ]
            .concat(),
        ),
        (
            2,
            [
                &peers.get("a").unwrap().events[5..8],
                &peers.get("b").unwrap().events[6..11],
                &peers.get("c").unwrap().events[3..4],
                &peers.get("d").unwrap().events[7..10],
            ]
            .concat(),
        ),
        (
            3,
            [
                &peers.get("b").unwrap().events[11..12],
                &peers.get("d").unwrap().events[10..11],
            ]
            .concat(),
        ),
    ];
    cases.push(((graph, names), "build_graph_detailed_example", round_cases));
    for ((graph, names), graph_name, round_cases) in cases {
        for (round_index_index, events) in round_cases {
            let members = graph.round_events(round_index_index).unwrap();
            for event in events {
                assert!(
                    members.contains(&event),
                    "Round {} of graph {} does not have event {} (calculated round {})",
                    round_index_index,
                    graph_name,
                    names.get(&key(&event)).unwrap(),
                    graph.round_of(&event)
                );
                assert_eq!(graph.round_of(&event), round_index_index);
            }
        }
    }
}

// In the chain graph the fourth event of the chain has the round of its
// self parent, so it is no witness, and with two rounds no election is
// decided.

#[test]
fn chain_graph_witnesses() {
    let (graph, peers, _names) = build_graph_some_chain(&unit_payload(), 15).unwrap();

    // the geneses
    assert!(graph.determine_witness(&peers.get("g1").unwrap().events[0]));
    assert!(graph.determine_witness(&peers.get("g2").unwrap().events[0]));
    assert!(graph.determine_witness(&peers.get("g3").unwrap().events[0]));
    // round 0, as their self parents
    assert!(!graph.determine_witness(&peers.get("g1").unwrap().events[1]));
    assert!(!graph.determine_witness(&peers.get("g2").unwrap().events[1]));
    assert!(!graph.determine_witness(&peers.get("g3").unwrap().events[1]));
    assert!(!graph.determine_witness(&peers.get("g2").unwrap().events[2]));
    // the first events of round 1
    assert!(graph.determine_witness(&peers.get("g1").unwrap().events[2]));
    assert!(graph.determine_witness(&peers.get("g3").unwrap().events[2]));
    assert!(graph.determine_witness(&peers.get("g2").unwrap().events[3]));
    assert_eq!(graph.round_of(&peers.get("g3").unwrap().events[2]), 1);
    assert_eq!(graph.round_of(&peers.get("g2").unwrap().events[3]), 1);
    assert_eq!(graph.rounds_count(), 2);
}

#[test]
fn chain_graph_fame() {
    let (mut graph, peers, _names) = build_graph_some_chain(&unit_payload(), 15).unwrap();
    let g1 = peers.get("g1").unwrap().events[0];
    let e1 = peers.get("g1").unwrap().events[1];

    assert_eq!(graph.is_famous_witness(&g1), Ok(WitnessFamousness::Undecided));
    assert_eq!(graph.is_famous_witness(&e1), Err(NotWitness));
    assert_eq!(graph.recorded_fame(&g1), Some(WitnessFamousness::Undecided));
    assert_eq!(graph.recorded_fame(&e1), None);
    assert_eq!(graph.decide_fame_for_witness(&e1), Err(NotWitness));
    assert_eq!(graph.decide_fame_for_witness(&g1), Ok(()));
    assert_eq!(graph.recorded_fame(&g1), Some(WitnessFamousness::Undecided));
}

#[test]
fn detailed_example_fame() {
    let (mut graph, peers, _names) = build_graph_detailed_example(&unit_payload(), 999).unwrap();
    assert_eq!(graph.rounds_count(), 4);
    assert_eq!(graph.members_count(), 4);
    // every genesis is seen by all witnesses of the next round, and the
    // witnesses of the round after it decide
    for name in ["a", "b", "c", "d"] {
        let genesis = peers.get(name).unwrap().events[0];
        assert_eq!(graph.is_famous_witness(&genesis), Ok(WitnessFamousness::Yes));
    }
    // the witnesses of round 1: a2, b2, c2, d2
    let a2 = peers.get("a").unwrap().events[2];
    let b2 = peers.get("b").unwrap().events[4];
    let c2 = peers.get("c").unwrap().events[2];
    let d2 = peers.get("d").unwrap().events[4];
    assert_eq!(graph.is_famous_witness(&a2), Ok(WitnessFamousness::Yes));
    assert_eq!(graph.is_famous_witness(&b2), Ok(WitnessFamousness::Yes));
    // of the witnesses a3, b3, c3, d3 of round 2 only c3 sees c2: the first
    // witness of round 3 collects one vote for and three against
    assert_eq!(graph.is_famous_witness(&c2), Ok(WitnessFamousness::No));
    assert_eq!(graph.is_famous_witness(&d2), Ok(WitnessFamousness::Yes));
    // the witnesses of the last two rounds have no round that decides
    let b3 = peers.get("b").unwrap().events[6];
    let b4 = peers.get("b").unwrap().events[11];
    assert_eq!(graph.is_famous_witness(&b3), Ok(WitnessFamousness::Undecided));
    assert_eq!(graph.is_famous_witness(&b4), Ok(WitnessFamousness::Undecided));
    // an event that is no witness
    let b2_1 = peers.get("b").unwrap().events[5];
    assert_eq!(graph.is_famous_witness(&b2_1), Err(NotWitness));

    // deciding commits to the registry
    assert_eq!(graph.recorded_fame(&c2), Some(WitnessFamousness::Undecided));
    assert_eq!(graph.decide_fame_for_witness(&c2), Ok(()));
    assert_eq!(graph.recorded_fame(&c2), Some(WitnessFamousness::No));
    assert_eq!(graph.decide_fame_for_witness(&a2), Ok(()));
    assert_eq!(graph.recorded_fame(&a2), Some(WitnessFamousness::Yes));
    assert_eq!(graph.decide_fame_for_witness(&b2_1), Err(NotWitness));
    assert_eq!(graph.recorded_fame(&b2_1), None);
    // a recorded decision is final: more events and more peers do not
    // change it
    let before = graph.events_count();
    let newcomer = graph
        .push_node(unit_payload(), PushKind::Genesis, 77)
        .unwrap();
    add_event(&mut graph, 77, b4, unit_payload()).unwrap();
    assert_eq!(graph.events_count(), before + 2);
    assert_eq!(graph.is_famous_witness(&c2), Ok(WitnessFamousness::No));
    assert_eq!(graph.decide_fame_for_witness(&c2), Ok(()));
    assert_eq!(graph.recorded_fame(&c2), Some(WitnessFamousness::No));
    assert_eq!(graph.recorded_fame(&a2), Some(WitnessFamousness::Yes));
    assert_eq!(graph.recorded_fame(&newcomer), Some(WitnessFamousness::Undecided));
}

#[test]
fn coin_rounds_vote_and_do_not_decide() {
    // with coin frequency 2 the second round of every election is a coin
    // round, in which no witness decides
    let (graph, peers, _names) = build_graph_detailed_example(&unit_payload(), 2).unwrap();
    let a_genesis = peers.get("a").unwrap().events[0];
    // the election of a genesis: round 1 votes, round 2 is a coin round,
    // round 3 decides with the votes of round 2
    assert_eq!(graph.is_famous_witness(&a_genesis), Ok(WitnessFamousness::Yes));
    // the election of a witness of round 1 has no round after its coin round
    let b2 = peers.get("b").unwrap().events[4];
    assert_eq!(graph.is_famous_witness(&b2), Ok(WitnessFamousness::Undecided));
    // with coin frequency 1 every round is a coin round
    let (graph, peers, _names) = build_graph_detailed_example(&unit_payload(), 1).unwrap();
    for name in ["a", "b", "c", "d"] {
        let genesis = peers.get(name).unwrap().events[0];
        assert_eq!(graph.is_famous_witness(&genesis), Ok(WitnessFamousness::Undecided));
    }
}

#[test]
fn thresholds() {
    assert_eq!(supermajority_threshold(0), 0);
    assert_eq!(supermajority_threshold(1), 0);
    assert_eq!(supermajority_threshold(2), 1);
    assert_eq!(supermajority_threshold(3), 2);
    assert_eq!(supermajority_threshold(4), 2);
    assert_eq!(supermajority_threshold(5), 3);
    assert_eq!(supermajority_threshold(7), 4);
    assert_eq!(supermajority_threshold(usize::MAX), usize::MAX / 3 * 2);
}

#[test]
fn graph_of_one_event() {
    let graph = Graph::new(5, int_payload(9), 3);
    assert_eq!(graph.self_id(), 5);
    assert_eq!(graph.coin_frequency(), 3);
    assert_eq!(graph.members_count(), 1);
    assert_eq!(graph.events_count(), 1);
    assert_eq!(graph.rounds_count(), 1);
    let genesis = *graph.peer_genesis(&5).unwrap();
    assert!(graph.peer_latest_event(&5).unwrap() == &genesis);
    assert!(graph.peer_genesis(&6).is_none());
    assert!(graph.peer_latest_event(&6).is_none());
    assert_eq!(graph.peer_is_forking(&5), Some(false));
    assert_eq!(graph.peer_is_forking(&6), None);
    assert_eq!(graph.event(&genesis), Some(&int_payload(9)));
    assert!(graph.contains_event(&genesis));
    assert_eq!(graph.round_of(&genesis), 0);
    assert!(graph.determine_witness(&genesis));
    assert!(graph.ancestor(&genesis, &genesis));
    assert!(graph.see(&genesis, &genesis));
    // one author out of one is more than 2 * 1 / 3 = 0
    assert!(graph.strongly_see(&genesis, &genesis));
    assert_eq!(graph.round_events(0).unwrap().len(), 1);
    assert!(graph.round_events(1).is_none());
    // the genesis is what `new_fakely_signed` makes of the same fields
    let same = SignedEvent::new_fakely_signed(int_payload(9), Kind::Genesis(Vec::new()), 5, 0);
    assert!(same.hash() == &genesis);
    let stored = graph.signed_event(&genesis).unwrap();
    assert!(stored.signature() == same.signature());
    assert!(stored.signature().0 == genesis);
    let wrapper = graph.wrapper(&genesis).unwrap();
    assert!(wrapper.children().other_children.is_empty());
    assert_eq!(*wrapper.timestamp(), 0);
    assert_eq!(*wrapper.author(), 5);
}

#[test]
fn push_errors_leave_the_graph_as_it_was() {
    let (mut graph, peers, _names) = build_graph_some_chain(&unit_payload(), 15).unwrap();
    let count = graph.events_count();
    let g1 = peers.get("g1").unwrap().events[0];
    let latest = *graph.peer_latest_event(&0).unwrap();
    // a peer without a genesis
    assert!(matches!(
        graph.push_node(unit_payload(), PushKind::Regular(g1), 42),
        Err(PushError::PeerNotFound(42))
    ));
    // an other parent that is not in the store
    let stranger = SignedEvent::new_fakely_signed(vec![1], Kind::Genesis(Vec::new()), 42, 0);
    assert!(matches!(
        graph.push_node(unit_payload(), PushKind::Regular(*stranger.hash()), 0),
        Err(PushError::NoParent(h)) if &h == stranger.hash()
    ));
    // a second genesis of a known peer, with another payload
    assert!(matches!(
        graph.push_node(int_payload(3), PushKind::Genesis, 1),
        Err(PushError::GenesisAlreadyExists)
    ));
    // the same genesis again
    assert!(matches!(
        graph.push_node(unit_payload(), PushKind::Genesis, 0),
        Err(PushError::NodeAlreadyExists(h)) if h == g1
    ));
    assert_eq!(graph.events_count(), count);
    assert_eq!(graph.members_count(), 3);
    assert!(graph.peer_latest_event(&0).unwrap() == &latest);
    // the other parent may be the self parent
    let own = graph
        .push_node(unit_payload(), PushKind::Regular(latest), 0)
        .unwrap();
    assert!(graph.peer_latest_event(&0).unwrap() == &own);
    let wrapper = graph.wrapper(&latest).unwrap();
    let e6 = peers.get("g3").unwrap().events[2];
    assert!(wrapper.children().self_child.clone().into_vec() == vec![own]);
    assert!(wrapper.children().other_children == vec![e6, own]);
    assert!(wrapper.children().clone().into_vec() == vec![own, e6, own]);
    assert_eq!(graph.peer_is_forking(&0), Some(false));
}

#[test]
fn stored_events_satisfy_the_invariants() {
    let (graph, peers, _names) = build_graph_detailed_example(&unit_payload(), 999).unwrap();
    let mut count = 0;
    for (_name, peer) in peers.iter() {
        for (k, event) in peer.events.iter().enumerate() {
            count += 1;
            // every event is in the list of its round, and in no other
            let round = graph.round_of(event);
            for r in 0..graph.rounds_count() {
                let members = graph.round_events(r).unwrap();
                assert_eq!(members.contains(event), r == round);
            }
            let stored = graph.signed_event(event).unwrap();
            assert_eq!(*stored.unsigned().fields().author(), peer.id);
            match stored.unsigned().fields().kind() {
                Kind::Genesis(payload) => {
                    assert_eq!(k, 0);
                    assert!(payload.is_empty());
                    assert!(graph.determine_witness(event));
                    assert_eq!(round, 0);
                }
                Kind::Regular(parents) => {
                    // the parents are stored, the self parent by the author
                    assert!(parents.self_parent == peer.events[k - 1]);
                    assert!(graph.contains_event(&parents.other_parent));
                    let self_parent = graph.signed_event(&parents.self_parent).unwrap();
                    assert_eq!(*self_parent.unsigned().fields().author(), peer.id);
                    // witness iff the round is later than that of the self parent
                    assert_eq!(
                        graph.determine_witness(event),
                        round > graph.round_of(&parents.self_parent)
                    );
                    assert_eq!(
                        graph.recorded_fame(event).is_some(),
                        graph.determine_witness(event)
                    );
                    // ancestry
                    assert!(graph.ancestor(event, &parents.self_parent));
                    assert!(graph.ancestor(event, &parents.other_parent));
                    assert!(!graph.ancestor(&parents.self_parent, event));
                    // the child pointers of the parents name the event
                    let kids = graph.wrapper(&parents.self_parent).unwrap().children();
                    assert!(kids.self_child.clone().into_vec() == vec![*event]);
                    let kids = graph.wrapper(&parents.other_parent).unwrap().children();
                    assert!(kids.other_children.contains(event));
                }
            }
            assert!(graph.ancestor(event, event));
        }
        assert!(graph.peer_latest_event(&peer.id).unwrap() == peer.events.last().unwrap());
        assert!(graph.peer_genesis(&peer.id).unwrap() == &peer.events[0]);
    }
    assert_eq!(count, graph.events_count());
    // ancestry is transitive
    let all: Vec<hash::Hash> = peers.values().flat_map(|p| p.events.clone()).collect();
    for a in all.iter().step_by(3) {
        for b in all.iter().step_by(2) {
            if !graph.ancestor(a, b) {
                continue;
            }
            for c in all.iter() {
                if graph.ancestor(b, c) {
                    assert!(graph.ancestor(a, c));
                }
            }
        }
    }
}

#[test]
fn ancestors_come_in_the_order_of_the_traversal() {
    let (graph, peers, _names) = build_graph_some_chain(&unit_payload(), 15).unwrap();
    let g1 = &peers.get("g1").unwrap().events;
    let g2 = &peers.get("g2").unwrap().events;
    let g3 = &peers.get("g3").unwrap().events;
    // from e4 = g2[2]: its self ancestors wait first, the oldest on top; what
    // is reached through an other parent is pushed when the child is handed out
    let mut iter = graph.iter(&g2[2]).unwrap();
    let mut order = vec![];
    while let Some(event) = iter.next() {
        order.push(*event.hash());
    }
    assert!(order == vec![g2[0], g2[1], g1[0], g1[1], g2[2], g3[0], g3[1]]);
    assert!(iter.next().is_none());
    // a genesis has itself as its only ancestor
    let mut iter = graph.iter(&g3[0]).unwrap();
    assert!(iter.next().unwrap().hash() == &g3[0]);
    assert!(iter.next().is_none());
    // no traversal from an event that is not stored
    let stranger = SignedEvent::new_fakely_signed(vec![1], Kind::Genesis(Vec::new()), 42, 0);
    assert!(graph.iter(stranger.hash()).is_none());
    let entry = graph.peer_entry(&1).unwrap();
    assert!(entry.genesis() == &g2[0]);
    assert!(entry.latest_event() == &g2[3]);
    assert!(!entry.is_forking());
    assert!(graph.peer_entry(&9).is_none());
}
