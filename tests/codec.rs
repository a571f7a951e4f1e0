use relay_man::codec::{decode, encode, from_wire, to_wire};
use relay_man::packets::{
    ConnectOn, Info, InfoRequest, NewRequest, NewRequestFinal, NewRequestResponse, Packets,
    Register, RegisterResponse, Request, RequestFinal, RequestResponse, Search, SearchResponse,
    SearchType, UnRegister,
};

fn all_packets() -> Vec<Packets> {
    vec![
        Packets::Register(Register::Client {
            client: "Test".to_string(),
            public: vec![1, 2, 3, 4],
            name: "konkito".to_string(),
            other: vec![7],
            privacy: true,
            private_adress: "192.168.1.4".to_string(),
        }),
        Packets::Register(Register::Port { session: 77 }),
        Packets::RegisterResponse(RegisterResponse::Client { accepted: true, session: 12345 }),
        Packets::RegisterResponse(RegisterResponse::Port { port: 2120 }),
        Packets::UnRegister(UnRegister { session: 3 }),
        Packets::Search(Search {
            session: 1,
            client: SearchType::Fuzzy("Te".to_string()),
            name: SearchType::Exact("konkito".to_string()),
            other: SearchType::Any,
        }),
        Packets::Search(Search {
            session: 1,
            client: SearchType::Any,
            name: SearchType::Any,
            other: SearchType::Fuzzy(vec![1, 2]),
        }),
        Packets::Search(Search {
            session: 1,
            client: SearchType::Exact(String::new()),
            name: SearchType::Fuzzy(String::new()),
            other: SearchType::Exact(vec![]),
        }),
        Packets::SearchResponse(SearchResponse { session: 9, adresses: vec![vec![1, 2], vec![], vec![3]] }),
        Packets::Info(Info {
            has: true,
            name: "n".to_string(),
            client: "c".to_string(),
            other: vec![0, 255],
            adress: vec![5, 6, 7, 8],
        }),
        Packets::InfoRequest(InfoRequest { adress: vec![5, 6, 7, 8], session: 4 }),
        Packets::Request(Request { session: 1, to: vec![5, 6, 7, 8], secret: "s1".to_string() }),
        Packets::NewRequest(NewRequest { session: 2, from: vec![1, 2, 3, 4], secret: "s1".to_string() }),
        Packets::RequestResponse(RequestResponse {
            session: 2,
            to: vec![1, 2, 3, 4],
            accepted: true,
            secret: "s2".to_string(),
        }),
        Packets::NewRequestResponse(NewRequestResponse {
            session: 1,
            from: vec![5, 6, 7, 8],
            accepted: false,
            secret: String::new(),
        }),
        Packets::RequestFinal(RequestFinal {
            session: 1,
            to: vec![5, 6, 7, 8],
            accepted: true,
            time_offset: 2_000_000_000,
        }),
        Packets::NewRequestFinal(NewRequestFinal { session: 2, from: vec![1, 2, 3, 4], accepted: true }),
        Packets::ConnectOn(ConnectOn {
            session: 1,
            to: "10.0.0.2:7000".to_string(),
            port: 6000,
            adress: vec![5, 6, 7, 8],
            time: u128::MAX,
        }),
        Packets::Tick { session: usize::MAX },
    ]
}

#[test]
fn every_variant_round_trips() {
    for p in all_packets() {
        let bytes = encode(p.clone());
        let back = decode(&bytes).expect("decodes");
        assert_eq!(encode(back), bytes, "{:?}", p);
    }
}

#[test]
fn tick_layout() {
    let bytes = encode(Packets::Tick { session: 5 });
    let mut expected = vec![14, 0, 0, 0, 0, 0, 0, 0];
    expected.extend_from_slice(&[5, 0, 0, 0, 0, 0, 0, 0]);
    assert_eq!(bytes, expected);
}

#[test]
fn nested_variant_layout() {
    let bytes = encode(Packets::RegisterResponse(RegisterResponse::Port { port: 0x0102 }));
    let mut expected = vec![1, 0, 0, 0, 0, 0, 0, 0];
    expected.extend_from_slice(&[1, 0, 0, 0, 0, 0, 0, 0]);
    expected.extend_from_slice(&[2, 1]);
    assert_eq!(bytes, expected);
}

#[test]
fn text_and_flag_layout() {
    let bytes = encode(Packets::NewRequestFinal(NewRequestFinal { session: 1, from: vec![9], accepted: true }));
    let mut expected = vec![12, 0, 0, 0, 0, 0, 0, 0];
    expected.extend_from_slice(&[1, 0, 0, 0, 0, 0, 0, 0]);
    expected.extend_from_slice(&[1, 0, 0, 0, 0, 0, 0, 0, 9]);
    expected.push(1);
    assert_eq!(bytes, expected);
    let bytes = encode(Packets::Request(Request { session: 0, to: vec![], secret: "ab".to_string() }));
    assert_eq!(&bytes[24..], &[2, 0, 0, 0, 0, 0, 0, 0, b'a', b'b']);
    let bytes = encode(Packets::RequestFinal(RequestFinal {
        session: 0,
        to: vec![],
        accepted: false,
        time_offset: 0x0102,
    }));
    assert_eq!(bytes[24], 0);
    assert_eq!(&bytes[25..27], &[2, 1]);
}

#[test]
fn wire_is_reversed() {
    let p = Packets::Tick { session: 5 };
    let mut bytes = encode(p.clone());
    bytes.reverse();
    assert_eq!(to_wire(p), bytes);
    match from_wire(&bytes) {
        Some(Packets::Tick { session }) => assert_eq!(session, 5),
        other => panic!("unexpected {:?}", other),
    }
}

#[test]
fn short_or_unknown_bytes_do_not_decode() {
    assert!(decode(&[]).is_none());
    assert!(decode(&[14, 0, 0, 0, 0, 0, 0, 0, 5]).is_none());
    assert!(decode(&[15, 0, 0, 0, 0, 0, 0, 0, 5, 0, 0, 0, 0, 0, 0, 0]).is_none());
    assert!(decode(&[0, 0, 0, 0, 0, 0, 0, 0, 2, 0, 0, 0, 0, 0, 0, 0]).is_none());
    let mut bytes = encode(Packets::Request(Request { session: 0, to: vec![1], secret: "abc".to_string() }));
    bytes.pop();
    assert!(decode(&bytes).is_none());
}

#[test]
fn trailing_bytes_are_ignored() {
    let mut bytes = encode(Packets::UnRegister(UnRegister { session: 3 }));
    bytes.extend_from_slice(&[1, 2, 3]);
    match decode(&bytes) {
        Some(Packets::UnRegister(u)) => assert_eq!(u.session, 3),
        other => panic!("unexpected {:?}", other),
    }
}

#[test]
fn non_ascii_text_reads_back_byte_by_byte() {
    let p = Packets::NewRequest(NewRequest { session: 1, from: vec![], secret: "\u{e9}".to_string() });
    let bytes = encode(p);
    match decode(&bytes) {
        Some(Packets::NewRequest(r)) => assert_eq!(r.secret, "\u{c3}\u{a9}"),
        other => panic!("unexpected {:?}", other),
    }
}
