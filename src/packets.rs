//! The messages exchanged between clients and the relay.
use vstd::prelude::*;

verus! {

/// Public identity of a client, opaque to the protocol.
pub type Adress = Vec<u8>;

/// A filter on one field of a registered client.
#[derive(Clone, Debug, Default)]
pub enum SearchType<T> {
    /// The field contains the value.
    Fuzzy(T),
    /// The field equals the value.
    Exact(T),
    /// Every value passes (no filter).
    #[default]
    Any,
}

#[derive(Clone, Debug, Default)]
pub struct Search {
    pub session: usize,
    pub client: SearchType<String>,
    pub name: SearchType<String>,
    pub other: SearchType<Vec<u8>>,
}

#[derive(Clone, Debug)]
pub struct SearchResponse {
    pub session: usize,
    pub adresses: Vec<Adress>,
}

#[derive(Clone, Debug)]
pub enum Register {
    Client {
        client: String,
        public: Adress,
        name: String,
        other: Vec<u8>,
        privacy: bool,
        private_adress: String,
    },
    Port { session: usize },
}

#[derive(Clone, Debug)]
pub enum RegisterResponse {
    Client { accepted: bool, session: usize },
    Port { port: u16 },
}

impl RegisterResponse {
    /// A port registration is always an acceptance.
    pub fn accepted(&self) -> (r: bool)
        ensures
            r == match self {
                RegisterResponse::Client { accepted, .. } => *accepted,
                RegisterResponse::Port { .. } => true,
            },
    {
        match self {
            RegisterResponse::Client { accepted, .. } => *accepted,
            RegisterResponse::Port { .. } => true,
        }
    }
}

#[derive(Clone, Debug)]
pub struct UnRegister {
    pub session: usize,
}

#[derive(Clone, Debug)]
pub struct InfoRequest {
    pub adress: Adress,
    pub session: usize,
}

#[derive(Clone, Debug)]
pub struct Info {
    pub has: bool,
    pub name: String,
    pub client: String,
    pub other: Vec<u8>,
    pub adress: Adress,
}

#[derive(Clone, Debug)]
pub struct Request {
    pub session: usize,
    pub to: Adress,
    pub secret: String,
}

#[derive(Clone, Debug)]
pub struct NewRequest {
    pub session: usize,
    pub from: Adress,
    pub secret: String,
}

impl NewRequest {
    /// The answer to this request: accepted or not, with no secret.
    pub fn accept(&self, accept: bool) -> (r: Packets)
        ensures
            r matches Packets::RequestResponse(x) && x.to@ == self.from@ && x.accepted == accept
                && x.secret@.len() == 0,
    {
        Packets::RequestResponse(
            RequestResponse {
                session: 0,
                to: crate::handshake::copy_adress(&self.from),
                accepted: accept,
                secret: String::new(),
            },
        )
    }
}

#[derive(Clone, Debug)]
pub struct RequestResponse {
    pub session: usize,
    pub to: Adress,
    pub accepted: bool,
    pub secret: String,
}

#[derive(Clone, Debug)]
pub struct NewRequestResponse {
    pub session: usize,
    pub from: Adress,
    pub accepted: bool,
    pub secret: String,
}

/// The time offset (ns) used when the asker names none: one second.
pub const DEFAULT_TIME_OFFSET: u128 = 1_000_000_000;

impl NewRequestResponse {
    /// The final step towards the answering side: accepted or not, with the
    /// given start offset (ns), or one second.
    pub fn accept(&self, accept: bool, time_offset: Option<u128>) -> (r: Packets)
        ensures
            r matches Packets::RequestFinal(x) && x.to@ == self.from@ && x.accepted == accept
                && x.time_offset == match time_offset {
                Some(t) => t,
                None => DEFAULT_TIME_OFFSET,
            },
    {
        let time_offset = match time_offset {
            Some(t) => t,
            None => DEFAULT_TIME_OFFSET,
        };
        Packets::RequestFinal(
            RequestFinal {
                session: 0,
                to: crate::handshake::copy_adress(&self.from),
                accepted: accept,
                time_offset,
            },
        )
    }
}

#[derive(Clone, Debug)]
pub struct RequestFinal {
    pub session: usize,
    pub to: Adress,
    pub accepted: bool,
    pub time_offset: u128,
}

#[derive(Clone, Debug)]
pub struct NewRequestFinal {
    pub session: usize,
    pub from: Adress,
    pub accepted: bool,
}

#[derive(Clone, Debug)]
pub struct ConnectOn {
    pub session: usize,
    pub to: String,
    pub port: u16,
    pub adress: Adress,
    pub time: u128,
}

#[derive(Clone, Debug)]
pub struct Avalibile {
    pub session: usize,
    pub port: u16,
}

/// Every message of the protocol, one variant each.
#[derive(Clone, Debug)]
pub enum Packets {
    Register(Register),
    RegisterResponse(RegisterResponse),
    UnRegister(UnRegister),
    Search(Search),
    SearchResponse(SearchResponse),
    Info(Info),
    InfoRequest(InfoRequest),
    Request(Request),
    NewRequest(NewRequest),
    RequestResponse(RequestResponse),
    NewRequestResponse(NewRequestResponse),
    RequestFinal(RequestFinal),
    NewRequestFinal(NewRequestFinal),
    ConnectOn(ConnectOn),
    Tick { session: usize },
}

} // verus!
