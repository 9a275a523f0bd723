use peersearch::actor::{ActorAction, ActorInput, SearchCommand, SearchConfig, actor_step};
use peersearch::documents::DocumentResult;
use peersearch::query::{Query, QueryComp};
use peersearch::session::{SearchPark, SessionEntry, SessionError};
use peersearch::wordcount::WordCount;

fn result_named(cid: &str) -> DocumentResult {
    DocumentResult {
        cid: cid.to_string(),
        paths: vec![],
        icon_cid: None,
        domain: None,
        title: Some("t".to_string()),
        h1: None,
        description: None,
        extract: None,
        term_counts: vec![],
        word_count: WordCount::zero(),
    }
}

fn entry(cid: &str, peer: &str) -> SessionEntry {
    SessionEntry {
        result: result_named(cid),
        peer: peer.to_string(),
    }
}

#[test]
fn drain_returns_arrivals_in_order_then_nothing() {
    let mut park = SearchPark::new();
    let id = park.insert();
    park.push_result(id, entry("a", "peer1")).expect("the session exists");
    park.push_result(id, entry("b", "peer2")).expect("the session exists");
    let got = park.get_results(id).expect("the session exists");
    assert_eq!(got.len(), 2);
    assert_eq!(got[0].result.cid, "a");
    assert_eq!(got[0].peer, "peer1");
    assert_eq!(got[1].result.cid, "b");
    assert_eq!(got[1].peer, "peer2");
    // a drain resets the buffer but keeps the session
    let empty = park.get_results(id).expect("the session still exists");
    assert!(empty.is_empty());
    // results arriving after a drain belong to the next drain
    park.push_result(id, entry("c", "peer3")).expect("the session exists");
    let next = park.get_results(id).expect("the session still exists");
    assert_eq!(next.len(), 1);
    assert_eq!(next[0].result.cid, "c");
}

#[test]
fn unknown_session_is_a_typed_error() {
    let mut park = SearchPark::new();
    let id = park.insert();
    let unknown = id.wrapping_add(1);
    assert!(matches!(park.get_results(unknown), Err(SessionError::UnknownSession)));
    assert!(matches!(park.push_result(unknown, entry("a", "p")), Err(SessionError::UnknownSession)));
    // the known session is untouched
    assert!(park.get_results(id).expect("still registered").is_empty());
}

#[test]
fn sessions_are_independent() {
    let mut park = SearchPark::new();
    let id1 = park.insert();
    let id2 = park.insert();
    assert_ne!(id1, id2, "two random ids practically never collide");
    park.push_result(id1, entry("a", "p1")).expect("the session exists");
    park.push_result(id2, entry("b", "p2")).expect("the session exists");
    let got1 = park.get_results(id1).expect("registered");
    let got2 = park.get_results(id2).expect("registered");
    assert_eq!(got1.len(), 1);
    assert_eq!(got1[0].result.cid, "a");
    assert_eq!(got2.len(), 1);
    assert_eq!(got2[0].result.cid, "b");
}

#[test]
fn actor_starts_searches_and_stops_on_closure() {
    let cmd = SearchCommand {
        query: Query {
            root: QueryComp::Word("hello".to_string()),
        },
        config: SearchConfig::default(),
    };
    match actor_step(ActorInput::Command(cmd)) {
        ActorAction::StartSearch(c) => match c.query.root {
            QueryComp::Word(w) => assert_eq!(w, "hello"),
            _ => panic!("the command must carry its query unchanged"),
        },
        _ => panic!("a command must start a search"),
    }
    assert!(matches!(actor_step(ActorInput::Closed), ActorAction::Stop));
    match actor_step(ActorInput::NetworkEvent("listening".to_string())) {
        ActorAction::Log(e) => assert_eq!(e, "listening"),
        _ => panic!("a network event is only logged"),
    }
}

#[test]
fn default_search_config_fan_out() {
    let c = SearchConfig::default();
    assert_eq!(c.fan_out, 3);
}
