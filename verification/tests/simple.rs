use std::collections::HashMap;

use crypto::digest::Digest;
use crypto::sha3::Sha3;
use hashgraph::simple::{Context, Event, EventGraph, Transaction};

fn generate() -> ([String; 5], EventGraph, HashMap<String, usize>) {
    let c1 = "a".to_string();
    let c2 = "b".to_string();
    let c3 = "c".to_string();
    let genesis = Event::Genesis { creator: c3.clone() };
    let genesis1 = Event::Genesis { creator: c2.clone() };

    let e1 = Event::Update {
        creator: c1,
        self_parent: genesis.hash(),
        other_parent: genesis1.hash(),
        txs: vec![],
        witness: false,
    };
    let e2 = Event::Update {
        creator: c2,
        self_parent: genesis.hash(),
        other_parent: e1.hash(),
        txs: vec![],
        witness: false,
    };
    let e3 = Event::Update {
        creator: c3,
        self_parent: genesis.hash(),
        other_parent: e1.hash(),
        txs: vec![],
        witness: false,
    };

    let mut events: EventGraph = EventGraph::new();
    let mut event_rounds: HashMap<String, usize> = HashMap::new();

    let g_hash = genesis.hash();
    event_rounds.insert(genesis.hash(), 1);
    events.insert(genesis.hash(), genesis);

    let g1_hash = genesis1.hash();
    event_rounds.insert(genesis1.hash(), 1);
    events.insert(genesis1.hash(), genesis1);

    let e1_hash = e1.hash();
    event_rounds.insert(e1.hash(), e1.determine_round(&events, &event_rounds));
    events.insert(e1.hash(), e1);

    let e2_hash = e2.hash();
    event_rounds.insert(e2.hash(), e2.determine_round(&events, &event_rounds));
    events.insert(e2.hash(), e2);

    let e3_hash = e3.hash();
    event_rounds.insert(e3.hash(), e3.determine_round(&events, &event_rounds));
    events.insert(e3.hash(), e3);

    (
        [g_hash, g1_hash, e1_hash, e2_hash, e3_hash],
        events,
        event_rounds,
    )
}

fn sha3_hex(text: &str) -> String {
    let mut hasher = Sha3::sha3_256();
    hasher.input_str(text);
    hasher.result_str()
}

#[test]
fn lib_test_ancestor() {
    let ([genesis, _genesis1, e1, _e2, _e3], events, _event_rounds) = generate();

    assert_eq!(
        true,
        Event::ancestor(
            events.get(&e1).unwrap(),
            events.get(&genesis).unwrap(),
            &events
        )
    )
}

#[test]
fn lib_test_strongly_see() {
    let ([genesis, _genesis1, _e1, e2, _e3], events, _event_rounds) = generate();
    let context = Context {
        events: events,
        num_nodes: 3,
    };

    assert_eq!(
        true,
        Event::strongly_see(
            context.events.get(&e2).unwrap(),
            context.events.get(&genesis).unwrap(),
            &context
        )
    );
}

#[test]
fn simple_hash_is_sha3_of_json() {
    let genesis = Event::Genesis {
        creator: "c".to_string(),
    };
    assert_eq!(genesis.json(), "{\"Genesis\":{\"creator\":\"c\"}}");
    assert_eq!(genesis.hash(), sha3_hex("{\"Genesis\":{\"creator\":\"c\"}}"));
    assert_eq!(genesis.hash().len(), 64);
    assert_ne!(genesis.hash(), genesis.json());

    let update = Event::Update {
        creator: "a \"quoted\" name".to_string(),
        self_parent: "left".to_string(),
        other_parent: "right".to_string(),
        txs: vec![Transaction, Transaction, Transaction],
        witness: true,
    };
    let text = "{\"Update\":{\"creator\":\"a \\\"quoted\\\" name\",\"self_parent\":\"left\",\"other_parent\":\"right\",\"txs\":[null,null,null],\"witness\":true}}";
    assert_eq!(update.json(), text);
    assert_eq!(update.hash(), sha3_hex(text));
    let parsed: serde_json::Value = serde_json::from_str(&update.json()).unwrap();
    assert_eq!(parsed["Update"]["creator"], "a \"quoted\" name");
    assert_eq!(parsed["Update"]["txs"].as_array().unwrap().len(), 3);

    let empty = Event::Update {
        creator: "a".to_string(),
        self_parent: "left".to_string(),
        other_parent: "right".to_string(),
        txs: vec![],
        witness: false,
    };
    assert_eq!(
        empty.json(),
        "{\"Update\":{\"creator\":\"a\",\"self_parent\":\"left\",\"other_parent\":\"right\",\"txs\":[],\"witness\":false}}"
    );
}

#[test]
fn simple_graph_refuses_orphans_and_duplicates() {
    let mut events = EventGraph::new();
    let genesis = Event::Genesis {
        creator: "c".to_string(),
    };
    let key = genesis.hash();
    assert!(events.insert(key.clone(), genesis));
    assert_eq!(events.len(), 1);
    // the key is taken
    assert!(!events.insert(
        key.clone(),
        Event::Genesis {
            creator: "d".to_string()
        }
    ));
    // a parent is missing
    let orphan = Event::Update {
        creator: "a".to_string(),
        self_parent: key.clone(),
        other_parent: "nowhere".to_string(),
        txs: vec![],
        witness: false,
    };
    assert!(!events.insert(orphan.hash(), orphan));
    assert_eq!(events.len(), 1);
    assert!(events.contains_key(&key));
    assert!(events.get(&"nowhere".to_string()).is_none());
}

#[test]
fn simple_rounds_and_ancestry() {
    let ([genesis, genesis1, e1, e2, e3], events, event_rounds) = generate();
    // a genesis has round 1, and an event the greater round of its parents
    for key in [&genesis, &genesis1, &e1, &e2, &e3] {
        assert_eq!(event_rounds[key], 1);
        assert_eq!(
            events.get(key).unwrap().determine_round(&events, &event_rounds),
            1
        );
    }
    let get = |key: &String| events.get(key).unwrap();
    // reflexive
    assert!(Event::ancestor(get(&e3), get(&e3), &events));
    assert!(Event::ancestor(get(&genesis), get(&genesis), &events));
    // through the other parent, twice
    assert!(Event::ancestor(get(&e2), get(&genesis1), &events));
    assert!(Event::see(get(&e2), get(&genesis1), &events));
    // not against the direction of the parent links
    assert!(!Event::ancestor(get(&genesis), get(&e1), &events));
    assert!(!Event::ancestor(get(&e1), get(&e2), &events));
    assert!(!Event::ancestor(get(&e2), get(&e3), &events));
}

#[test]
fn simple_strongly_see_counts_events_with_parents() {
    let ([genesis, _genesis1, e1, e2, _e3], events, _rounds) = generate();
    let context = Context {
        events,
        num_nodes: 3,
    };
    let get = |key: &String| context.events.get(key).unwrap();
    // a genesis never strongly sees, nor does an event see itself strongly
    assert!(!Event::strongly_see(get(&genesis), get(&e1), &context));
    assert!(!Event::strongly_see(get(&e2), get(&e2), &context));
    // e1 reaches one event with parents (itself): 1 < 2 * 3 / 3
    assert!(!Event::strongly_see(get(&e1), get(&genesis), &context));
    // e2 reaches two: itself and e1
    assert!(Event::strongly_see(get(&e2), get(&genesis), &context));
    // passing e1 is not allowed when e1 is the target
    assert!(!Event::strongly_see(get(&e2), get(&e1), &context));
    let mut seen = Vec::new();
    assert!(Event::strongly_see_aux(get(&e2), get(&genesis), &context, &mut seen));
    assert_eq!(seen, vec![e2.clone(), e1.clone()]);
    let wide = Context {
        events: generate().1,
        num_nodes: 5,
    };
    // 2 < 2 * 5 / 3 = 3
    assert!(!Event::strongly_see(
        wide.events.get(&e2).unwrap(),
        wide.events.get(&genesis).unwrap(),
        &wide
    ));
}
