use liars::agent::{campaign_party, Action, Certificate, Message, Phase, RemoteAgent, Response, Session, MAX_RETRIES};
use liars::conf::Child;

fn child(pid: u32, socket: u16) -> Child {
    Child { pid, socket }
}

fn cert(value: bool, pid: u32) -> Certificate {
    Certificate { value, issuer: child(pid, 4000 + pid as u16) }
}

#[test]
fn get_value_carries_own_claim() {
    let me = child(42, 5000);
    let mut s = Session::new(false, me);
    match s.on_request(Message::GetValue) {
        Action::Reply(Response::Certificate(c)) => {
            assert_eq!(c.value, false);
            assert_eq!(c.issuer, me);
        }
        other => panic!("unexpected action {:?}", other),
    }
    assert_eq!(s.phase, Phase::Serving);
}

#[test]
fn get_value_is_idempotent() {
    let me = child(7, 6001);
    let mut s = Session::new(true, me);
    let mut seen = Vec::new();
    for _ in 0..3 {
        match s.on_request(Message::GetValue) {
            Action::Reply(Response::Certificate(c)) => seen.push(c),
            other => panic!("unexpected action {:?}", other),
        }
    }
    assert_eq!(seen[0], seen[1]);
    assert_eq!(seen[1], seen[2]);
    assert_eq!(seen[0], Certificate { value: true, issuer: me });
}

#[test]
fn stop_is_acknowledged_then_connection_refuses() {
    let mut s = Session::new(true, child(1, 7000));
    assert!(matches!(s.on_request(Message::Stop), Action::ReplyAndClose(Response::Stop)));
    assert_eq!(s.phase, Phase::Closed);
    assert!(matches!(s.on_request(Message::GetValue), Action::Close));
    assert!(matches!(s.on_request(Message::Stop), Action::Close));
    assert_eq!(s.phase, Phase::Closed);
}

#[test]
fn campaign_request_asks_to_canvass_peers() {
    let peers = vec![child(1, 1001), child(2, 1002)];
    let mut s = Session::new(true, child(1, 1001));
    match s.on_request(Message::Campaign(peers.clone())) {
        Action::Canvass(p) => assert_eq!(p, peers),
        other => panic!("unexpected action {:?}", other),
    }
    assert_eq!(s.phase, Phase::Campaigning);
}

#[test]
fn campaign_party_keeps_only_agreeing_certificates() {
    let replies = vec![
        Response::Certificate(cert(true, 1)),
        Response::Certificate(cert(false, 2)),
        Response::Stop,
        Response::Quorum(vec![cert(true, 9)]),
        Response::Certificate(cert(true, 3)),
    ];
    let party = campaign_party(true, &replies);
    assert_eq!(party, vec![cert(true, 1), cert(true, 3)]);
    let party = campaign_party(false, &replies);
    assert_eq!(party, vec![cert(false, 2)]);
    assert!(campaign_party(true, &Vec::new()).is_empty());
}

#[test]
fn canvass_result_becomes_quorum_reply() {
    let mut s = Session::new(false, child(2, 1002));
    assert!(matches!(s.on_request(Message::Campaign(vec![child(1, 1001), child(2, 1002)])), Action::Canvass(_)));
    let replies = vec![Response::Certificate(cert(true, 1)), Response::Certificate(cert(false, 2))];
    match s.on_canvass_done(&replies) {
        Action::Reply(Response::Quorum(party)) => {
            assert_eq!(party, vec![cert(false, 2)]);
            assert!(party.iter().all(|c| c.value == false));
        }
        other => panic!("unexpected action {:?}", other),
    }
    assert_eq!(s.phase, Phase::Serving);
}

#[test]
fn canvass_result_without_campaign_closes() {
    let mut s = Session::new(false, child(2, 1002));
    assert!(matches!(s.on_canvass_done(&Vec::new()), Action::Close));
    assert_eq!(s.phase, Phase::Closed);
}

#[test]
fn request_during_campaign_closes() {
    let mut s = Session::new(false, child(2, 1002));
    assert!(matches!(s.on_request(Message::Campaign(Vec::new())), Action::Canvass(_)));
    assert!(matches!(s.on_request(Message::GetValue), Action::Close));
    assert_eq!(s.phase, Phase::Closed);
}

#[test]
fn disconnect_closes_session() {
    let mut s = Session::new(true, child(3, 1003));
    s.on_disconnect();
    assert_eq!(s.phase, Phase::Closed);
    assert!(matches!(s.on_request(Message::GetValue), Action::Close));
}

#[test]
fn remote_agent_keeps_its_child() {
    let c = child(99, 12345);
    assert_eq!(RemoteAgent::new(c).conf, c);
}

#[test]
fn connect_backoff_grows_linearly_then_gives_up() {
    assert_eq!(MAX_RETRIES, 10);
    assert_eq!(RemoteAgent::connect_backoff(0), Some(0));
    assert_eq!(RemoteAgent::connect_backoff(1), Some(1));
    assert_eq!(RemoteAgent::connect_backoff(8), Some(8));
    assert_eq!(RemoteAgent::connect_backoff(9), None);
    assert_eq!(RemoteAgent::connect_backoff(25), None);
}
