use relay_man::client::{
    merge_adresses, port_registration_outcome, register_packet, registration_outcome, Connection, ConnectionError,
    ConnectionInfo, RelayClient, RelayClientError, RequestStage, Wanted,
};
use relay_man::packets::{
    ConnectOn, Info, NewRequest, NewRequestFinal, NewRequestResponse, Packets, Register,
    RegisterResponse, Request, Search, SearchResponse,
};

fn info() -> ConnectionInfo {
    ConnectionInfo {
        client: "Test".to_string(),
        name: "konkito".to_string(),
        public: vec![1, 2, 3, 4],
        other: vec![],
        privacy: false,
    }
}

#[test]
fn registration_outcomes() {
    let ok = Some(Packets::RegisterResponse(RegisterResponse::Client { accepted: true, session: 42 }));
    assert_eq!(registration_outcome(ok).unwrap(), 42);
    let refused = Some(Packets::RegisterResponse(RegisterResponse::Client { accepted: false, session: 0 }));
    assert!(matches!(registration_outcome(refused), Err(ConnectionError::InvalidAdress)));
    let port = Some(Packets::RegisterResponse(RegisterResponse::Port { port: 1 }));
    assert!(matches!(registration_outcome(port), Err(ConnectionError::InvalidAdress)));
    assert!(matches!(registration_outcome(None), Err(ConnectionError::InvalidInfo)));
    let other = Some(Packets::Tick { session: 1 });
    assert!(matches!(registration_outcome(other), Err(ConnectionError::InvalidInfo)));
}

#[test]
fn register_packet_carries_the_info() {
    match register_packet(&info(), "192.168.0.9".to_string()) {
        Packets::Register(Register::Client { client, public, name, other, privacy, private_adress }) => {
            assert_eq!(client, "Test");
            assert_eq!(public, vec![1, 2, 3, 4]);
            assert_eq!(name, "konkito");
            assert!(other.is_empty());
            assert!(!privacy);
            assert_eq!(private_adress, "192.168.0.9");
        }
        other => panic!("unexpected {:?}", other),
    }
}

#[test]
fn outgoing_messages_get_the_session() {
    let mut c = Connection::new(7, info(), 0);
    let p = c.send(Packets::Request(Request { session: 0, to: vec![5], secret: "x".to_string() }), 99);
    match p {
        Packets::Request(r) => {
            assert_eq!(r.session, 7);
            assert_eq!(r.to, vec![5]);
        }
        other => panic!("unexpected {:?}", other),
    }
    assert_eq!(c.last_packet, 99);
    let p = c.send(Packets::Search(Search::default()), 100);
    assert!(matches!(p, Packets::Search(s) if s.session == 7));
}

#[test]
fn keepalive_after_two_seconds() {
    let mut c = Connection::new(7, info(), 1_000);
    assert!(!c.tick_due(1_000 + 1_999_999_999));
    assert!(c.tick_due(1_000 + 2_000_000_000));
    assert!(matches!(c.tick(5_000_000_000), Packets::Tick { session: 7 }));
    assert_eq!(c.last_packet, 5_000_000_000);
}

#[test]
fn search_answer_updates_known_addresses() {
    let mut c = Connection::new(7, info(), 0);
    assert!(!c.has(&Wanted::SearchResponse));
    c.on_packet(Packets::SearchResponse(SearchResponse { session: 7, adresses: vec![vec![5], vec![6]] }));
    assert_eq!(c.adresses, vec![vec![5], vec![6]]);
    assert!(c.has(&Wanted::SearchResponse));
    assert_eq!(c.take_search().unwrap(), vec![vec![5], vec![6]]);
    assert!(c.packets.is_empty());
}

#[test]
fn replies_are_picked_by_address() {
    let mut c = Connection::new(7, info(), 0);
    c.on_packet(Packets::NewRequestResponse(NewRequestResponse {
        session: 7,
        from: vec![5],
        accepted: true,
        secret: "a".to_string(),
    }));
    c.on_packet(Packets::NewRequestResponse(NewRequestResponse {
        session: 7,
        from: vec![6],
        accepted: false,
        secret: "b".to_string(),
    }));
    c.on_packet(Packets::Info(Info {
        has: true,
        name: "bob".to_string(),
        client: "Test".to_string(),
        other: vec![1],
        adress: vec![6],
    }));
    c.on_packet(Packets::Info(Info {
        has: false,
        name: String::new(),
        client: String::new(),
        other: vec![],
        adress: vec![8],
    }));
    let r = c.take_response(&vec![6]).unwrap();
    assert!(!r.accepted);
    assert_eq!(r.secret, "b");
    assert!(c.take_response(&vec![6]).is_none());
    let i = c.take_info(&vec![6]).unwrap().unwrap();
    assert_eq!(i.name, "bob");
    assert_eq!(i.client, "Test");
    assert_eq!(i.public, vec![6]);
    assert!(c.take_info(&vec![8]).unwrap().is_none());
    assert!(c.take_info(&vec![9]).is_none());
    assert_eq!(c.packets.len(), 1);
}

#[test]
fn handshake_steps_come_out_in_order() {
    let mut c = Connection::new(7, info(), 0);
    c.on_packet(Packets::Tick { session: 1 });
    c.on_packet(Packets::NewRequest(NewRequest { session: 7, from: vec![5], secret: "s1".to_string() }));
    c.on_packet(Packets::NewRequestFinal(NewRequestFinal { session: 7, from: vec![5], accepted: true }));
    c.on_packet(Packets::ConnectOn(ConnectOn {
        session: 7,
        to: "1.2.3.4:5".to_string(),
        port: 9,
        adress: vec![5],
        time: 3,
    }));
    match c.has_new() {
        Some(RequestStage::NewRequest(r)) => assert_eq!(r.secret, "s1"),
        other => panic!("unexpected {:?}", other),
    }
    assert!(matches!(c.has_new(), Some(RequestStage::NewRequestFinal(_))));
    let on = c.take_connect_on(&vec![5]).unwrap();
    assert_eq!(on.port, 9);
    assert!(c.has_new().is_none());
    assert_eq!(c.packets.len(), 1);
    assert!(c.take_final(&vec![5]).is_none());
}

#[test]
fn search_results_are_merged_without_repeats() {
    let mut acc = vec![vec![1], vec![2]];
    merge_adresses(&mut acc, vec![vec![2], vec![3], vec![1], vec![3]]);
    assert_eq!(acc, vec![vec![1], vec![2], vec![3]]);
}

#[test]
fn relay_client_collects_and_locates() {
    assert!(matches!(RelayClient::new(info(), 0, vec![], vec![]), Err(RelayClientError::NoRelays)));
    assert!(matches!(
        RelayClient::new(info(), 2, vec![], vec![ConnectionError::HostIsNotAlive]),
        Err(RelayClientError::NoConnections)
    ));
    let mut a = Connection::new(1, info(), 0);
    let mut b = Connection::new(2, info(), 0);
    a.on_packet(Packets::SearchResponse(SearchResponse { session: 1, adresses: vec![vec![5], vec![6]] }));
    let mut client = RelayClient::new(info(), 2, vec![a, Connection::new(3, info(), 0)], vec![]).unwrap();
    assert!(!client.search_done());
    b.on_packet(Packets::SearchResponse(SearchResponse { session: 2, adresses: vec![vec![6], vec![7]] }));
    client.connections[1] = b;
    assert!(client.search_done());
    assert_eq!(client.where_is_adress(&vec![6]), vec![0, 1]);
    assert_eq!(client.where_is_adress(&vec![7]), vec![1]);
    assert_eq!(client.collect_search(), vec![vec![5], vec![6], vec![7]]);
    assert!(client.has_new().is_none());
    client.connections[1].on_packet(Packets::NewRequest(NewRequest { session: 2, from: vec![5], secret: String::new() }));
    assert!(matches!(client.has_new(), Some((1, RequestStage::NewRequest(_)))));
}

#[test]
fn port_registration_outcomes() {
    let granted = Some(Packets::RegisterResponse(RegisterResponse::Port { port: 6000 }));
    assert_eq!(port_registration_outcome(granted), Some(6000));
    let refused = Some(Packets::RegisterResponse(RegisterResponse::Client { accepted: false, session: 3 }));
    assert_eq!(port_registration_outcome(refused), None);
    assert_eq!(port_registration_outcome(None), None);
}

#[test]
fn replies_to_handshake_steps() {
    let request = NewRequest { session: 7, from: vec![5], secret: "s1".to_string() };
    match request.accept(true) {
        Packets::RequestResponse(r) => {
            assert_eq!(r.to, vec![5]);
            assert!(r.accepted);
            assert!(r.secret.is_empty());
        }
        other => panic!("unexpected {:?}", other),
    }
    let answer = NewRequestResponse { session: 7, from: vec![6], accepted: true, secret: String::new() };
    match answer.accept(true, None) {
        Packets::RequestFinal(r) => {
            assert_eq!(r.to, vec![6]);
            assert_eq!(r.time_offset, 1_000_000_000);
        }
        other => panic!("unexpected {:?}", other),
    }
    match answer.accept(false, Some(2_000_000_000)) {
        Packets::RequestFinal(r) => {
            assert!(!r.accepted);
            assert_eq!(r.time_offset, 2_000_000_000);
        }
        other => panic!("unexpected {:?}", other),
    }
}
