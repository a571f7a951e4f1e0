use relay_man::packets::{
    Packets, Register, RegisterResponse, Request, RequestFinal, RequestResponse, Search,
    SearchType, InfoRequest,
};
use relay_man::registry::{ClientStage, Connecting, Endpoint, Outgoing, RelayServer};

fn endpoint(ip: &str, port: u16) -> Endpoint {
    Endpoint { ip: ip.to_string(), v4: true, port }
}

fn register(public: Vec<u8>, name: &str, private: &str) -> Packets {
    Packets::Register(Register::Client {
        client: "Test".to_string(),
        public,
        name: name.to_string(),
        other: vec![9, 9],
        privacy: false,
        private_adress: private.to_string(),
    })
}

/// A relay with A ([1,2,3,4]) at index 0 and B ([5,6,7,8]) at index 1.
fn two_clients() -> (RelayServer, usize, usize) {
    let mut s = RelayServer::new(5_000_000_000);
    let a = s.accept_new(endpoint("10.0.0.1", 5000), 0);
    let b = s.accept_new(endpoint("10.0.0.2", 5001), 0);
    let mut out = Vec::new();
    s.process_packet(0, register(vec![1, 2, 3, 4], "alice", "192.168.0.2"), 0, &mut out);
    s.process_packet(1, register(vec![5, 6, 7, 8], "bob", "192.168.0.3"), 0, &mut out);
    (s, a, b)
}

fn add_port(s: &mut RelayServer, ip: &str, port: u16, parent: usize) -> Vec<Outgoing> {
    s.accept_new(endpoint(ip, port), 0);
    let index = s.clients.len() - 1;
    let mut out = Vec::new();
    s.process_packet(index, Packets::Register(Register::Port { session: parent }), 0, &mut out);
    out
}

fn intents(s: &RelayServer, index: usize) -> Vec<Connecting> {
    match &s.clients[index].stage {
        ClientStage::Registered(r) => r.to_connect.clone(),
        ClientStage::NotRegistered => panic!("not registered"),
    }
}

fn ports(s: &RelayServer, index: usize) -> Vec<u16> {
    match &s.clients[index].stage {
        ClientStage::Registered(r) => r.ports.clone(),
        ClientStage::NotRegistered => panic!("not registered"),
    }
}

fn total_ports(s: &RelayServer) -> usize {
    (0..s.clients.len())
        .filter(|i| matches!(s.clients[*i].stage, ClientStage::Registered(_)))
        .map(|i| ports(s, i).len())
        .sum()
}

fn request(to: Vec<u8>, secret: &str) -> Packets {
    Packets::Request(Request { session: 0, to, secret: secret.to_string() })
}

fn response(to: Vec<u8>, accepted: bool, secret: &str) -> Packets {
    Packets::RequestResponse(RequestResponse { session: 0, to, accepted, secret: secret.to_string() })
}

fn final_step(to: Vec<u8>, accepted: bool, time_offset: u128) -> Packets {
    Packets::RequestFinal(RequestFinal { session: 0, to, accepted, time_offset })
}

#[test]
fn registration_assigns_distinct_nonzero_sessions() {
    let (s, a, b) = two_clients();
    assert_ne!(a, 0);
    assert_ne!(b, 0);
    assert_ne!(a, b);
    assert_eq!(s.clients[0].session, a);
    assert_eq!(s.clients[1].session, b);
}

#[test]
fn registration_is_answered_with_the_session() {
    let mut s = RelayServer::new(5_000_000_000);
    let a = s.accept_new(endpoint("10.0.0.1", 5000), 0);
    let mut out = Vec::new();
    s.process_packet(0, register(vec![1, 2, 3, 4], "alice", "lan"), 0, &mut out);
    assert_eq!(out.len(), 1);
    assert_eq!(out[0].session, a);
    match &out[0].packet {
        Packets::RegisterResponse(RegisterResponse::Client { accepted, session }) => {
            assert!(*accepted);
            assert_eq!(*session, a);
        }
        other => panic!("unexpected {:?}", other),
    }
}

#[test]
fn duplicate_registration_is_rejected() {
    let (mut s, a, _) = two_clients();
    let c = s.accept_new(endpoint("10.0.0.3", 5002), 0);
    let mut out = Vec::new();
    s.process_packet(2, register(vec![1, 2, 3, 4], "mallory", "lan"), 0, &mut out);
    assert_eq!(out.len(), 1);
    assert_eq!(out[0].session, c);
    match &out[0].packet {
        Packets::RegisterResponse(RegisterResponse::Client { accepted, session }) => {
            assert!(!*accepted);
            assert_eq!(*session, 0);
        }
        other => panic!("unexpected {:?}", other),
    }
    assert!(matches!(s.clients[2].stage, ClientStage::NotRegistered));
    match &s.clients[0].stage {
        ClientStage::Registered(r) => {
            assert_eq!(r.adress, vec![1, 2, 3, 4]);
            assert_eq!(r.name, "alice");
        }
        ClientStage::NotRegistered => panic!("first registration lost"),
    }
    assert_eq!(s.clients[0].session, a);
    assert!(!s.avalibile_adress(&vec![1, 2, 3, 4]));
    assert!(s.avalibile_adress(&vec![7, 7]));
}

#[test]
fn search_with_no_filter_finds_everyone() {
    let (mut s, a, _) = two_clients();
    let mut out = Vec::new();
    s.process_packet(0, Packets::Search(Search::default()), 10, &mut out);
    assert_eq!(out.len(), 1);
    assert_eq!(out[0].session, a);
    match &out[0].packet {
        Packets::SearchResponse(r) => {
            assert_eq!(r.session, a);
            assert_eq!(r.adresses, vec![vec![1, 2, 3, 4], vec![5, 6, 7, 8]]);
        }
        other => panic!("unexpected {:?}", other),
    }
    assert_eq!(s.clients[0].last_message, 10);
}

#[test]
fn search_filters_exact_and_fuzzy() {
    let (mut s, _, _) = two_clients();
    let mut out = Vec::new();
    let q = Search {
        session: 0,
        client: SearchType::Any,
        name: SearchType::Fuzzy("li".to_string()),
        other: SearchType::Any,
    };
    s.process_packet(0, Packets::Search(q), 0, &mut out);
    let q = Search {
        session: 0,
        client: SearchType::Exact("Test".to_string()),
        name: SearchType::Exact("bob".to_string()),
        other: SearchType::Fuzzy(vec![9]),
    };
    s.process_packet(0, Packets::Search(q), 0, &mut out);
    let q = Search {
        session: 0,
        client: SearchType::Any,
        name: SearchType::Any,
        other: SearchType::Exact(vec![1]),
    };
    s.process_packet(0, Packets::Search(q), 0, &mut out);
    let found: Vec<Vec<Vec<u8>>> = out
        .iter()
        .map(|o| match &o.packet {
            Packets::SearchResponse(r) => r.adresses.clone(),
            other => panic!("unexpected {:?}", other),
        })
        .collect();
    assert_eq!(found[0], vec![vec![1, 2, 3, 4]]);
    assert_eq!(found[1], vec![vec![5, 6, 7, 8]]);
    assert!(found[2].is_empty());
}

#[test]
fn info_reports_the_registered_details() {
    let (mut s, a, _) = two_clients();
    let mut out = Vec::new();
    s.process_packet(0, Packets::InfoRequest(InfoRequest { adress: vec![5, 6, 7, 8], session: 0 }), 0, &mut out);
    s.process_packet(0, Packets::InfoRequest(InfoRequest { adress: vec![4, 4], session: 0 }), 0, &mut out);
    assert_eq!(out[0].session, a);
    match &out[0].packet {
        Packets::Info(i) => {
            assert!(i.has);
            assert_eq!(i.name, "bob");
            assert_eq!(i.client, "Test");
            assert_eq!(i.other, vec![9, 9]);
            assert_eq!(i.adress, vec![5, 6, 7, 8]);
        }
        other => panic!("unexpected {:?}", other),
    }
    match &out[1].packet {
        Packets::Info(i) => {
            assert!(!i.has);
            assert!(i.adress.is_empty());
            assert!(i.name.is_empty());
        }
        other => panic!("unexpected {:?}", other),
    }
}

#[test]
fn request_to_unknown_address_is_refused_at_once() {
    let (mut s, a, _) = two_clients();
    let mut out = Vec::new();
    s.process_packet(0, request(vec![9, 9, 9], "s"), 0, &mut out);
    assert_eq!(out.len(), 1);
    assert_eq!(out[0].session, a);
    match &out[0].packet {
        Packets::NewRequestResponse(r) => {
            assert!(!r.accepted);
            assert_eq!(r.from, vec![9, 9, 9]);
            assert_eq!(r.secret, "");
        }
        other => panic!("unexpected {:?}", other),
    }
    assert!(intents(&s, 0).is_empty());
}

#[test]
fn full_handshake_ends_in_matching_connect_on() {
    let (mut s, a, b) = two_clients();
    let mut out = Vec::new();

    s.process_packet(0, request(vec![5, 6, 7, 8], "s1"), 0, &mut out);
    assert_eq!(out.len(), 1);
    assert_eq!(out[0].session, b);
    match &out[0].packet {
        Packets::NewRequest(r) => {
            assert_eq!(r.session, b);
            assert_eq!(r.from, vec![1, 2, 3, 4]);
            assert_eq!(r.secret, "s1");
        }
        other => panic!("unexpected {:?}", other),
    }
    assert_eq!(intents(&s, 0), vec![Connecting::Start(b)]);

    out.clear();
    s.process_packet(1, response(vec![1, 2, 3, 4], true, "s2"), 0, &mut out);
    assert_eq!(out.len(), 1);
    assert_eq!(out[0].session, a);
    match &out[0].packet {
        Packets::NewRequestResponse(r) => {
            assert_eq!(r.from, vec![5, 6, 7, 8]);
            assert!(r.accepted);
            assert_eq!(r.secret, "s2");
        }
        other => panic!("unexpected {:?}", other),
    }
    assert_eq!(intents(&s, 1), vec![Connecting::Start(a)]);

    out.clear();
    s.process_packet(0, final_step(vec![5, 6, 7, 8], true, 2_000_000_000), 0, &mut out);
    assert_eq!(out.len(), 1);
    assert_eq!(out[0].session, b);
    match &out[0].packet {
        Packets::NewRequestFinal(r) => {
            assert!(r.accepted);
            assert_eq!(r.from, vec![1, 2, 3, 4]);
        }
        other => panic!("unexpected {:?}", other),
    }
    assert_eq!(intents(&s, 0), vec![Connecting::Finishing(b, 2_000_000_000)]);
    assert_eq!(intents(&s, 1), vec![Connecting::Finishing(a, 2_000_000_000)]);

    // No ports yet: nothing happens.
    out.clear();
    s.connect(1_000, &mut out);
    assert!(out.is_empty());

    let granted = add_port(&mut s, "10.0.0.1", 6000, a);
    match &granted[0].packet {
        Packets::RegisterResponse(RegisterResponse::Port { port }) => assert_eq!(*port, 6000),
        other => panic!("unexpected {:?}", other),
    }
    // Only one side has a port: nothing happens, and the port stays.
    s.connect(1_000, &mut out);
    assert!(out.is_empty());
    assert_eq!(ports(&s, 0), vec![6000]);

    add_port(&mut s, "10.0.0.2", 7000, b);
    s.connect(1_000, &mut out);
    assert_eq!(out.len(), 2);
    let mut seen = 0;
    for o in &out {
        match &o.packet {
            Packets::ConnectOn(c) if o.session == a => {
                assert_eq!(c.session, a);
                assert_eq!(c.to, "10.0.0.2:7000");
                assert_eq!(c.port, 6000);
                assert_eq!(c.adress, vec![5, 6, 7, 8]);
                assert_eq!(c.time, 2_000_001_000);
                seen += 1;
            }
            Packets::ConnectOn(c) if o.session == b => {
                assert_eq!(c.session, b);
                assert_eq!(c.to, "10.0.0.1:6000");
                assert_eq!(c.port, 7000);
                assert_eq!(c.adress, vec![1, 2, 3, 4]);
                assert_eq!(c.time, 2_000_001_000);
                seen += 1;
            }
            other => panic!("unexpected {:?}", other),
        }
    }
    assert_eq!(seen, 2);
    assert!(intents(&s, 0).is_empty());
    assert!(intents(&s, 1).is_empty());
    assert!(ports(&s, 0).is_empty());
    assert!(ports(&s, 1).is_empty());
}

#[test]
fn peers_behind_one_address_get_lan_addresses() {
    let mut s = RelayServer::new(5_000_000_000);
    let a = s.accept_new(endpoint("8.8.8.8", 5000), 0);
    let b = s.accept_new(endpoint("8.8.8.8", 5001), 0);
    let mut out = Vec::new();
    s.process_packet(0, register(vec![1], "a", "192.168.0.2"), 0, &mut out);
    s.process_packet(1, register(vec![2], "b", "192.168.0.3"), 0, &mut out);
    s.process_packet(0, request(vec![2], ""), 0, &mut out);
    s.process_packet(1, response(vec![1], true, ""), 0, &mut out);
    s.process_packet(0, final_step(vec![2], true, 5), 0, &mut out);
    add_port(&mut s, "8.8.8.8", 40000, a);
    add_port(&mut s, "8.8.8.8", 40001, b);
    out.clear();
    s.connect(10, &mut out);
    assert_eq!(out.len(), 2);
    for o in &out {
        match &o.packet {
            Packets::ConnectOn(c) if o.session == a => assert_eq!(c.to, "192.168.0.3:40001"),
            Packets::ConnectOn(c) if o.session == b => assert_eq!(c.to, "192.168.0.2:40000"),
            other => panic!("unexpected {:?}", other),
        }
        if let Packets::ConnectOn(c) = &o.packet {
            assert_eq!(c.time, 15);
        }
    }
}

#[test]
fn half_confirmed_pair_is_never_connected() {
    let (mut s, a, b) = two_clients();
    let mut out = Vec::new();
    s.process_packet(0, request(vec![5, 6, 7, 8], ""), 0, &mut out);
    s.process_packet(1, response(vec![1, 2, 3, 4], true, ""), 0, &mut out);
    add_port(&mut s, "10.0.0.1", 6000, a);
    add_port(&mut s, "10.0.0.2", 7000, b);
    out.clear();
    // Both sides hold Start only: no ConnectOn, ports untouched.
    s.connect(0, &mut out);
    assert!(out.is_empty());
    assert_eq!(total_ports(&s), 2);
}

#[test]
fn ports_are_conserved_across_sweeps() {
    let (mut s, a, b) = two_clients();
    let mut out = Vec::new();
    s.process_packet(0, request(vec![5, 6, 7, 8], ""), 0, &mut out);
    s.process_packet(1, response(vec![1, 2, 3, 4], true, ""), 0, &mut out);
    s.process_packet(0, final_step(vec![5, 6, 7, 8], true, 1), 0, &mut out);
    add_port(&mut s, "10.0.0.1", 6000, a);
    add_port(&mut s, "10.0.0.1", 6001, a);
    let before = total_ports(&s);
    out.clear();
    s.connect(0, &mut out);
    assert_eq!(total_ports(&s) + out.len(), before);
    add_port(&mut s, "10.0.0.2", 7000, b);
    let before = total_ports(&s);
    out.clear();
    s.connect(0, &mut out);
    assert_eq!(out.len(), 2);
    assert_eq!(total_ports(&s) + out.len(), before);
    assert_eq!(ports(&s, 0), vec![6000]);
}

#[test]
fn port_from_another_address_is_refused() {
    let (mut s, a, _) = two_clients();
    let out = add_port(&mut s, "10.9.9.9", 6000, a);
    match &out[0].packet {
        Packets::RegisterResponse(RegisterResponse::Client { accepted, session }) => {
            assert!(!*accepted);
            assert_eq!(*session, a);
        }
        other => panic!("unexpected {:?}", other),
    }
    assert!(ports(&s, 0).is_empty());
}

#[test]
fn rejected_response_removes_only_that_pair() {
    let (mut s, a, b) = two_clients();
    let c = s.accept_new(endpoint("10.0.0.3", 5002), 0);
    let mut out = Vec::new();
    s.process_packet(2, register(vec![3], "carol", "lan"), 0, &mut out);
    s.process_packet(0, request(vec![5, 6, 7, 8], ""), 0, &mut out);
    s.process_packet(0, request(vec![3], ""), 0, &mut out);
    assert_eq!(intents(&s, 0), vec![Connecting::Start(b), Connecting::Start(c)]);
    out.clear();
    s.process_packet(1, response(vec![1, 2, 3, 4], false, ""), 0, &mut out);
    match &out[0].packet {
        Packets::NewRequestResponse(r) => assert!(!r.accepted),
        other => panic!("unexpected {:?}", other),
    }
    assert_eq!(out[0].session, a);
    assert_eq!(intents(&s, 0), vec![Connecting::Start(c)]);
    assert!(intents(&s, 1).is_empty());
}

#[test]
fn rejected_final_removes_both_sides() {
    let (mut s, _, _) = two_clients();
    let mut out = Vec::new();
    s.process_packet(0, request(vec![5, 6, 7, 8], ""), 0, &mut out);
    s.process_packet(1, response(vec![1, 2, 3, 4], true, ""), 0, &mut out);
    out.clear();
    s.process_packet(0, final_step(vec![5, 6, 7, 8], false, 0), 0, &mut out);
    match &out[0].packet {
        Packets::NewRequestFinal(r) => assert!(!r.accepted),
        other => panic!("unexpected {:?}", other),
    }
    assert!(intents(&s, 0).is_empty());
    assert!(intents(&s, 1).is_empty());
}

#[test]
fn unsolicited_response_is_dropped() {
    let (mut s, _, _) = two_clients();
    let mut out = Vec::new();
    s.process_packet(1, response(vec![1, 2, 3, 4], true, ""), 0, &mut out);
    assert!(out.is_empty());
    assert!(intents(&s, 1).is_empty());
    s.process_packet(1, final_step(vec![1, 2, 3, 4], true, 0), 0, &mut out);
    assert!(out.is_empty());
}

#[test]
fn stale_clients_are_evicted() {
    let (mut s, a, b) = two_clients();
    let mut out = Vec::new();
    s.process_packet(1, Packets::Tick { session: 0 }, 4_000_000_000, &mut out);
    let gone = s.evict_stale(6_000_000_000);
    assert_eq!(gone, vec![a]);
    assert_eq!(s.clients.len(), 1);
    assert_eq!(s.clients[0].session, b);
    s.process_packet(0, Packets::UnRegister(relay_man::packets::UnRegister { session: 0 }), 6_000_000_000, &mut out);
    let gone = s.evict_stale(6_000_000_000);
    assert_eq!(gone, vec![b]);
    assert!(s.clients.is_empty());
}

#[test]
fn wire_bytes_are_processed() {
    let (mut s, a, _) = two_clients();
    let mut out = Vec::new();
    let bytes = relay_man::codec::to_wire(Packets::Search(Search::default()));
    s.receive(0, &bytes, 0, &mut out);
    assert_eq!(out.len(), 1);
    assert_eq!(out[0].session, a);
    s.receive(0, &[1, 2, 3], 0, &mut out);
    assert_eq!(out.len(), 1);
}

#[test]
fn one_port_serves_one_of_two_ready_partners() {
    let (mut s, a, b) = two_clients();
    let c = s.accept_new(endpoint("10.0.0.3", 5002), 0);
    let mut out = Vec::new();
    s.process_packet(2, register(vec![3], "carol", "lan"), 0, &mut out);
    for (peer_index, peer_adress) in [(1usize, vec![5, 6, 7, 8]), (2usize, vec![3])] {
        s.process_packet(0, request(peer_adress.clone(), ""), 0, &mut out);
        s.process_packet(peer_index, response(vec![1, 2, 3, 4], true, ""), 0, &mut out);
        s.process_packet(0, final_step(peer_adress, true, 7), 0, &mut out);
    }
    add_port(&mut s, "10.0.0.1", 6000, a);
    add_port(&mut s, "10.0.0.2", 7000, b);
    add_port(&mut s, "10.0.0.3", 8000, c);
    out.clear();
    s.connect(0, &mut out);
    assert_eq!(out.len(), 2);
    assert_eq!(out[0].session, a);
    assert_eq!(out[1].session, b);
    // The pair left without a port keeps its intents for a later sweep.
    assert_eq!(intents(&s, 0), vec![Connecting::Finishing(c, 7)]);
    assert_eq!(intents(&s, 2), vec![Connecting::Finishing(a, 7)]);
    assert_eq!(ports(&s, 2), vec![8000]);
    add_port(&mut s, "10.0.0.1", 6001, a);
    out.clear();
    s.connect(0, &mut out);
    assert_eq!(out.len(), 2);
    match (&out[0].packet, &out[1].packet) {
        (Packets::ConnectOn(x), Packets::ConnectOn(y)) => {
            assert_eq!(x.port, 6001);
            assert_eq!(x.to, "10.0.0.3:8000");
            assert_eq!(y.port, 8000);
            assert_eq!(y.to, "10.0.0.1:6001");
            assert_eq!(x.time, y.time);
        }
        other => panic!("unexpected {:?}", other),
    }
}
