//! The client's side of the control channel, one relay at a time: the
//! registration exchange, the queue of what the relay sent, and picking
//! replies out of it.
use vstd::prelude::*;

use crate::handshake::copy_adress;
use crate::packets::{
    Adress, ConnectOn, NewRequest, NewRequestFinal, NewRequestResponse, Packets, Register,
    RegisterResponse,
};
use crate::directory::adresses_view;
use crate::registry::same_adress;

verus! {

/// Interval (ns) of silence after which a client sends a keepalive.
pub const TICK_INTERVAL: u128 = 2_000_000_000;

#[derive(Debug)]
pub enum ConnectionError {
    InvalidIp,
    HostIsNotAlive,
    InvalidInfo,
    InvalidAdress,
}

#[derive(Debug)]
pub enum RelayClientError {
    ConnectionError(ConnectionError),
    NoRelays,
    NoConnections,
}

/// What a client registers with.
#[derive(Clone, Debug)]
pub struct ConnectionInfo {
    pub client: String,
    pub name: String,
    pub public: Vec<u8>,
    pub other: Vec<u8>,
    pub privacy: bool,
}

/// A step of someone else's pairing handshake, as it reached this client.
#[derive(Debug)]
pub enum RequestStage {
    NewRequest(NewRequest),
    NewRequestResponse(NewRequestResponse),
    NewRequestFinal(NewRequestFinal),
    ConnectOn(ConnectOn),
}

/// Which queued message a caller waits for.
pub enum Wanted {
    SearchResponse,
    /// The Info about this address.
    Info(Adress),
    /// The answer of this address to our request.
    Response(Adress),
    /// The final step of this address.
    Final(Adress),
    /// The ConnectOn naming this address as peer.
    ConnectOn(Adress),
    /// Any handshake step, whoever it comes from.
    Stage,
}

/// What a selector asks for, as a kind and an address.
pub open spec fn wkey(w: Wanted) -> (nat, Seq<u8>) {
    match w {
        Wanted::SearchResponse => (0, Seq::empty()),
        Wanted::Info(a) => (1, a@),
        Wanted::Response(a) => (2, a@),
        Wanted::Final(a) => (3, a@),
        Wanted::ConnectOn(a) => (4, a@),
        Wanted::Stage => (5, Seq::empty()),
    }
}

pub open spec fn wanted_k(k: (nat, Seq<u8>), p: Packets) -> bool {
    if k.0 == 0 {
        p is SearchResponse
    } else if k.0 == 1 {
        p matches Packets::Info(i) && i.adress@ == k.1
    } else if k.0 == 2 {
        p matches Packets::NewRequestResponse(r) && r.from@ == k.1
    } else if k.0 == 3 {
        p matches Packets::NewRequestFinal(r) && r.from@ == k.1
    } else if k.0 == 4 {
        p matches Packets::ConnectOn(c) && c.adress@ == k.1
    } else {
        p is NewRequest || p is NewRequestResponse || p is NewRequestFinal || p is ConnectOn
    }
}

pub open spec fn wanted(w: Wanted, p: Packets) -> bool {
    wanted_k(wkey(w), p)
}

pub fn is_wanted(w: &Wanted, p: &Packets) -> (r: bool)
    ensures
        r == wanted(*w, *p),
{
    match (w, p) {
        (Wanted::SearchResponse, Packets::SearchResponse(_)) => true,
        (Wanted::Info(a), Packets::Info(i)) => same_adress(&i.adress, a),
        (Wanted::Response(a), Packets::NewRequestResponse(r)) => same_adress(&r.from, a),
        (Wanted::Final(a), Packets::NewRequestFinal(r)) => same_adress(&r.from, a),
        (Wanted::ConnectOn(a), Packets::ConnectOn(c)) => same_adress(&c.adress, a),
        (Wanted::Stage, Packets::NewRequest(_)) => true,
        (Wanted::Stage, Packets::NewRequestResponse(_)) => true,
        (Wanted::Stage, Packets::NewRequestFinal(_)) => true,
        (Wanted::Stage, Packets::ConnectOn(_)) => true,
        _ => false,
    }
}

/// Position of the first wanted message in the queue.
pub open spec fn first_wanted(q: Seq<Packets>, w: (nat, Seq<u8>)) -> int {
    choose|i: int|
        0 <= i < q.len() && wanted_k(w, q[i]) && forall|k: int|
            0 <= k < i ==> !wanted_k(w, #[trigger] q[k])
}

pub open spec fn any_wanted(q: Seq<Packets>, w: (nat, Seq<u8>)) -> bool {
    exists|i: int| 0 <= i < q.len() && #[trigger] wanted_k(w, q[i])
}

/// What the relay's answer to a registration means.
pub open spec fn registration_result(reply: Option<Packets>) -> Result<usize, ConnectionError> {
    match reply {
        Some(Packets::RegisterResponse(RegisterResponse::Client { accepted, session })) => if accepted {
            Ok(session)
        } else {
            Err(ConnectionError::InvalidAdress)
        },
        Some(Packets::RegisterResponse(RegisterResponse::Port { .. })) => Err(
            ConnectionError::InvalidAdress,
        ),
        _ => Err(ConnectionError::InvalidInfo),
    }
}

/// The relay's answer to a registration (None: nothing readable came):
/// an acceptance gives the session; a refusal, or a port answer, means the
/// address was not accepted; anything else is an invalid exchange.
pub fn registration_outcome(reply: Option<Packets>) -> (r: Result<usize, ConnectionError>)
    ensures
        r == registration_result(reply),
{
    match reply {
        Some(Packets::RegisterResponse(RegisterResponse::Client { accepted, session })) => {
            if accepted {
                Ok(session)
            } else {
                Err(ConnectionError::InvalidAdress)
            }
        },
        Some(Packets::RegisterResponse(RegisterResponse::Port { .. })) => Err(
            ConnectionError::InvalidAdress,
        ),
        _ => Err(ConnectionError::InvalidInfo),
    }
}

/// The relay's answer to a port registration: the port it took, if any.
pub fn port_registration_outcome(reply: Option<Packets>) -> (r: Option<u16>)
    ensures
        r == match reply {
            Some(Packets::RegisterResponse(RegisterResponse::Port { port })) => Some(port),
            _ => None::<u16>,
        },
{
    match reply {
        Some(Packets::RegisterResponse(RegisterResponse::Port { port })) => Some(port),
        _ => None,
    }
}

/// The registration message for `info`, with the LAN address of the host.
pub fn register_packet(info: &ConnectionInfo, private_adress: String) -> (r: Packets)
    ensures
        r matches Packets::Register(Register::Client { client, public, name, other, privacy, private_adress: pa })
            && client@ == info.client@ && public@ == info.public@ && name@ == info.name@ && other@
            == info.other@ && privacy == info.privacy && pa == private_adress,
{
    Packets::Register(
        Register::Client {
            client: info.client.clone(),
            public: copy_adress(&info.public),
            name: info.name.clone(),
            other: copy_adress(&info.other),
            privacy: info.privacy,
            private_adress,
        },
    )
}

/// `st` is the handshake step held by message `p`.
pub open spec fn stage_of(p: Packets, st: RequestStage) -> bool {
    match p {
        Packets::NewRequest(x) => st == RequestStage::NewRequest(x),
        Packets::NewRequestResponse(x) => st == RequestStage::NewRequestResponse(x),
        Packets::NewRequestFinal(x) => st == RequestStage::NewRequestFinal(x),
        Packets::ConnectOn(x) => st == RequestStage::ConnectOn(x),
        _ => false,
    }
}

/// The addresses of the first search answer queued on a link (none if none).
pub open spec fn search_answer(c: Connection) -> Seq<Seq<u8>> {
    let k = (0nat, Seq::<u8>::empty());
    if any_wanted(c.packets@, k) {
        match c.packets@[first_wanted(c.packets@, k)] {
            Packets::SearchResponse(p) => adresses_view(p.adresses@),
            _ => Seq::empty(),
        }
    } else {
        Seq::empty()
    }
}

/// Link `b` is link `a` with its first search answer, if any, taken out.
pub open spec fn taken_answer(a: Connection, b: Connection) -> bool {
    let k = (0nat, Seq::<u8>::empty());
    &&& b.session == a.session
    &&& any_wanted(a.packets@, k) ==> b.packets@ == a.packets@.remove(first_wanted(a.packets@, k))
    &&& !any_wanted(a.packets@, k) ==> b.packets@ == a.packets@
}

pub open spec fn search_answers(cs: Seq<Connection>) -> Seq<Seq<Seq<u8>>> {
    cs.map_values(|c: Connection| search_answer(c))
}

/// A registered link to one relay: the session it gave, and what it sent.
#[derive(Debug)]
pub struct Connection {
    pub session: usize,
    pub info: ConnectionInfo,
    /// When this client last sent anything (ns since the epoch).
    pub last_packet: u128,
    /// Received messages not yet taken.
    pub packets: Vec<Packets>,
    /// The addresses of the last search answer.
    pub adresses: Vec<Adress>,
}

impl Connection {
    pub fn new(session: usize, info: ConnectionInfo, now: u128) -> (r: Connection)
        ensures
            r.session == session,
            r.info == info,
            r.last_packet == now,
            r.packets@.len() == 0,
            r.adresses@.len() == 0,
    {
        Connection { session, info, last_packet: now, packets: Vec::new(), adresses: Vec::new() }
    }

    /// Queues a message from the relay; a search answer also becomes the
    /// known address list.
    pub fn on_packet(&mut self, packet: Packets)
        ensures
            final(self).session == old(self).session,
            final(self).last_packet == old(self).last_packet,
            final(self).packets@ == old(self).packets@.push(packet),
            packet matches Packets::SearchResponse(s) ==> adresses_view(final(self).adresses@)
                == adresses_view(s.adresses@),
            !(packet is SearchResponse) ==> final(self).adresses == old(self).adresses,
    {
        match &packet {
            Packets::SearchResponse(s) => {
                let mut copy: Vec<Adress> = Vec::new();
                let mut i: usize = 0;
                while i < s.adresses.len()
                    invariant
                        i <= s.adresses@.len(),
                        adresses_view(copy@) == adresses_view(s.adresses@.subrange(0, i as int)),
                    decreases s.adresses@.len() - i,
                {
                    let ghost prev = copy@;
                    copy.push(copy_adress(&s.adresses[i]));
                    proof {
                        assert(adresses_view(copy@) =~= adresses_view(prev).push(s.adresses@[i as int]@));
                        assert(s.adresses@.subrange(0, i + 1) =~= s.adresses@.subrange(0, i as int).push(s.adresses@[i as int]));
                        assert(adresses_view(s.adresses@.subrange(0, i + 1)) =~= adresses_view(s.adresses@.subrange(0, i as int)).push(s.adresses@[i as int]@));
                    }
                    i += 1;
                }
                assert(s.adresses@.subrange(0, s.adresses@.len() as int) =~= s.adresses@);
                self.adresses = copy;
            },
            _ => {},
        }
        self.packets.push(packet);
    }

    /// Whether a keepalive is due at `now`.
    pub fn tick_due(&self, now: u128) -> (r: bool)
        ensures
            r == (now < self.last_packet || now - self.last_packet >= TICK_INTERVAL),
    {
        now < self.last_packet || now - self.last_packet >= TICK_INTERVAL
    }

    /// Makes `packet` ready to send at `now`: a session-scoped message gets
    /// this link's session.
    pub fn send(&mut self, packet: Packets, now: u128) -> (r: Packets)
        ensures
            final(self).last_packet == now,
            final(self).session == old(self).session,
            final(self).packets == old(self).packets,
            final(self).adresses == old(self).adresses,
            match (packet, r) {
                (Packets::UnRegister(a), Packets::UnRegister(b)) => b.session == old(self).session,
                (Packets::Search(a), Packets::Search(b)) => b.session == old(self).session
                    && b.name == a.name && b.client == a.client && b.other == a.other,
                (Packets::InfoRequest(a), Packets::InfoRequest(b)) => b.session == old(self).session
                    && b.adress == a.adress,
                (Packets::Request(a), Packets::Request(b)) => b.session == old(self).session && b.to
                    == a.to && b.secret == a.secret,
                (Packets::RequestResponse(a), Packets::RequestResponse(b)) => b.session == old(
                    self,
                ).session && b.to == a.to && b.accepted == a.accepted && b.secret == a.secret,
                (Packets::RequestFinal(a), Packets::RequestFinal(b)) => b.session == old(
                    self,
                ).session && b.to == a.to && b.accepted == a.accepted && b.time_offset
                    == a.time_offset,
                (Packets::UnRegister(_), _) | (Packets::Search(_), _) | (Packets::InfoRequest(_), _)
                | (Packets::Request(_), _) | (Packets::RequestResponse(_), _) | (
                    Packets::RequestFinal(_),
                    _,
                ) => false,
                _ => r == packet,
            },
    {
        let mut packet = packet;
        let session = self.session;
        match &mut packet {
            Packets::UnRegister(p) => p.session = session,
            Packets::Search(p) => p.session = session,
            Packets::InfoRequest(p) => p.session = session,
            Packets::Request(p) => p.session = session,
            Packets::RequestResponse(p) => p.session = session,
            Packets::RequestFinal(p) => p.session = session,
            _ => {},
        }
        self.last_packet = now;
        packet
    }

    /// One round of the link at time `now`: queues what the relay sent, if
    /// anything, and gives the keepalive to send when one is due.
    pub fn step(&mut self, received: Option<Packets>, now: u128) -> (r: Option<Packets>)
        ensures
            final(self).session == old(self).session,
            received matches Some(p) ==> final(self).packets@ == old(self).packets@.push(p),
            received is None ==> final(self).packets == old(self).packets,
            received matches Some(Packets::SearchResponse(p)) ==> adresses_view(final(self).adresses@)
                == adresses_view(p.adresses@),
            !(received matches Some(Packets::SearchResponse(_))) ==> final(self).adresses
                == old(self).adresses,
            (now < old(self).last_packet || now - old(self).last_packet >= TICK_INTERVAL) ==> r
                == Some(Packets::Tick { session: old(self).session }) && final(self).last_packet
                == now,
            !(now < old(self).last_packet || now - old(self).last_packet >= TICK_INTERVAL) ==> r
                is None && final(self).last_packet == old(self).last_packet,
    {
        match received {
            Some(p) => self.on_packet(p),
            None => {},
        }
        if self.tick_due(now) {
            Some(self.tick(now))
        } else {
            None
        }
    }

    /// The keepalive, sent at `now`.
    pub fn tick(&mut self, now: u128) -> (r: Packets)
        ensures
            r == (Packets::Tick { session: old(self).session }),
            final(self).last_packet == now,
            final(self).session == old(self).session,
            final(self).packets == old(self).packets,
            final(self).adresses == old(self).adresses,
    {
        self.last_packet = now;
        Packets::Tick { session: self.session }
    }

    /// Whether a wanted message is queued.
    pub fn has(&self, w: &Wanted) -> (r: bool)
        ensures
            r == any_wanted(self.packets@, wkey(*w)),
    {
        let mut i: usize = 0;
        while i < self.packets.len()
            invariant
                i <= self.packets@.len(),
                forall|k: int| 0 <= k < i ==> !wanted(*w, #[trigger] self.packets@[k]),
            decreases self.packets@.len() - i,
        {
            if is_wanted(w, &self.packets[i]) {
                return true;
            }
            i += 1;
        }
        false
    }

    /// Takes the first wanted message out of the queue.
    pub fn take(&mut self, w: &Wanted) -> (r: Option<Packets>)
        ensures
            final(self).session == old(self).session,
            final(self).last_packet == old(self).last_packet,
            final(self).adresses == old(self).adresses,
            final(self).info == old(self).info,
            !any_wanted(old(self).packets@, wkey(*w)) ==> r is None && *final(self) == *old(self),
            any_wanted(old(self).packets@, wkey(*w)) ==> ({
                let i = first_wanted(old(self).packets@, wkey(*w));
                &&& 0 <= i < old(self).packets@.len()
                &&& wanted(*w, old(self).packets@[i])
                &&& r == Some(old(self).packets@[i])
                &&& final(self).packets@ == old(self).packets@.remove(i)
            }),
    {
        let mut i: usize = 0;
        while i < self.packets.len()
            invariant
                i <= self.packets@.len(),
                forall|k: int| 0 <= k < i ==> !wanted(*w, #[trigger] self.packets@[k]),
                *self == *old(self),
            decreases self.packets@.len() - i,
        {
            if is_wanted(w, &self.packets[i]) {
                proof {
                    let f = first_wanted(self.packets@, wkey(*w));
                    assert(0 <= f < self.packets@.len() && wanted(*w, self.packets@[f]));
                    if f < i {
                        assert(!wanted(*w, self.packets@[f]));
                    }
                    if f > i {
                        assert(!wanted(*w, self.packets@[i as int]));
                    }
                }
                return Some(self.packets.remove(i));
            }
            i += 1;
        }
        None
    }

    /// The first queued handshake step, taken out of the queue.
    pub fn has_new(&mut self) -> (r: Option<RequestStage>)
        ensures
            final(self).session == old(self).session,
            !any_wanted(old(self).packets@, (5nat, Seq::<u8>::empty())) ==> r is None && *final(self)
                == *old(self),
            any_wanted(old(self).packets@, (5nat, Seq::<u8>::empty())) ==> ({
                let i = first_wanted(old(self).packets@, (5nat, Seq::<u8>::empty()));
                &&& wanted_k((5nat, Seq::<u8>::empty()), old(self).packets@[i])
                &&& final(self).packets@ == old(self).packets@.remove(i)
                &&& r matches Some(st) && stage_of(old(self).packets@[i], st)
            }),
    {
        match self.take(&Wanted::Stage) {
            Some(Packets::NewRequest(p)) => Some(RequestStage::NewRequest(p)),
            Some(Packets::NewRequestResponse(p)) => Some(RequestStage::NewRequestResponse(p)),
            Some(Packets::NewRequestFinal(p)) => Some(RequestStage::NewRequestFinal(p)),
            Some(Packets::ConnectOn(p)) => Some(RequestStage::ConnectOn(p)),
            _ => None,
        }
    }

    /// The addresses of the first queued search answer, taken out.
    pub fn take_search(&mut self) -> (r: Option<Vec<Adress>>)
        ensures
            final(self).session == old(self).session,
            !any_wanted(old(self).packets@, (0nat, Seq::<u8>::empty())) ==> r is None && *final(self)
                == *old(self),
            any_wanted(old(self).packets@, (0nat, Seq::<u8>::empty())) ==> ({
                let i = first_wanted(old(self).packets@, (0nat, Seq::<u8>::empty()));
                &&& wanted_k((0nat, Seq::<u8>::empty()), old(self).packets@[i])
                &&& final(self).packets@ == old(self).packets@.remove(i)
                &&& old(self).packets@[i] matches Packets::SearchResponse(p) && r == Some(p.adresses)
            }),
    {
        match self.take(&Wanted::SearchResponse) {
            Some(Packets::SearchResponse(p)) => Some(p.adresses),
            _ => None,
        }
    }

    /// The first queued Info about `adress`, taken out: the registered
    /// details when the relay knows the address, else None inside.
    pub fn take_info(&mut self, adress: &Adress) -> (r: Option<Option<ConnectionInfo>>)
        ensures
            final(self).session == old(self).session,
            !any_wanted(old(self).packets@, (1nat, adress@)) ==> r is None,
            any_wanted(old(self).packets@, (1nat, adress@)) ==> ({
                let i = first_wanted(old(self).packets@, (1nat, adress@));
                &&& wanted_k((1nat, adress@), old(self).packets@[i])
                &&& final(self).packets@ == old(self).packets@.remove(i)
                &&& old(self).packets@[i] matches Packets::Info(p) && if p.has {
                    r matches Some(Some(c)) && c.client == p.client && c.name == p.name
                        && c.public@ == adress@ && c.other == p.other && !c.privacy
                } else {
                    r == Some(None::<ConnectionInfo>)
                }
            }),
    {
        let w = Wanted::Info(copy_adress(adress));
        match self.take(&w) {
            Some(Packets::Info(p)) => {
                if p.has {
                    Some(
                        Some(
                            ConnectionInfo {
                                client: p.client,
                                name: p.name,
                                public: copy_adress(adress),
                                other: p.other,
                                privacy: false,
                            },
                        ),
                    )
                } else {
                    Some(None)
                }
            },
            _ => None,
        }
    }

    /// The first queued answer of `from` to our request, taken out.
    pub fn take_response(&mut self, from: &Adress) -> (r: Option<NewRequestResponse>)
        ensures
            final(self).session == old(self).session,
            !any_wanted(old(self).packets@, (2nat, from@)) ==> r is None,
            any_wanted(old(self).packets@, (2nat, from@)) ==> ({
                let i = first_wanted(old(self).packets@, (2nat, from@));
                &&& wanted_k((2nat, from@), old(self).packets@[i])
                &&& final(self).packets@ == old(self).packets@.remove(i)
                &&& old(self).packets@[i] matches Packets::NewRequestResponse(p) && r == Some(p)
            }),
    {
        let w = Wanted::Response(copy_adress(from));
        match self.take(&w) {
            Some(Packets::NewRequestResponse(p)) => Some(p),
            _ => None,
        }
    }

    /// The first queued final step of `from`, taken out.
    pub fn take_final(&mut self, from: &Adress) -> (r: Option<NewRequestFinal>)
        ensures
            final(self).session == old(self).session,
            !any_wanted(old(self).packets@, (3nat, from@)) ==> r is None,
            any_wanted(old(self).packets@, (3nat, from@)) ==> ({
                let i = first_wanted(old(self).packets@, (3nat, from@));
                &&& wanted_k((3nat, from@), old(self).packets@[i])
                &&& final(self).packets@ == old(self).packets@.remove(i)
                &&& old(self).packets@[i] matches Packets::NewRequestFinal(p) && r == Some(p)
            }),
    {
        let w = Wanted::Final(copy_adress(from));
        match self.take(&w) {
            Some(Packets::NewRequestFinal(p)) => Some(p),
            _ => None,
        }
    }

    /// The first queued ConnectOn naming `peer`, taken out.
    pub fn take_connect_on(&mut self, peer: &Adress) -> (r: Option<ConnectOn>)
        ensures
            final(self).session == old(self).session,
            !any_wanted(old(self).packets@, (4nat, peer@)) ==> r is None,
            any_wanted(old(self).packets@, (4nat, peer@)) ==> ({
                let i = first_wanted(old(self).packets@, (4nat, peer@));
                &&& wanted_k((4nat, peer@), old(self).packets@[i])
                &&& final(self).packets@ == old(self).packets@.remove(i)
                &&& old(self).packets@[i] matches Packets::ConnectOn(p) && r == Some(p)
            }),
    {
        let w = Wanted::ConnectOn(copy_adress(peer));
        match self.take(&w) {
            Some(Packets::ConnectOn(p)) => Some(p),
            _ => None,
        }
    }
}

/// `acc` extended by the addresses of `l` it lacks, in order.
pub open spec fn merge_into(acc: Seq<Seq<u8>>, l: Seq<Seq<u8>>) -> Seq<Seq<u8>>
    decreases l.len(),
{
    if l.len() == 0 {
        acc
    } else {
        let m = merge_into(acc, l.drop_last());
        if m.contains(l.last()) {
            m
        } else {
            m.push(l.last())
        }
    }
}

/// The union of several address lists, first occurrences in order.
pub open spec fn merged(ls: Seq<Seq<Seq<u8>>>) -> Seq<Seq<u8>>
    decreases ls.len(),
{
    if ls.len() == 0 {
        Seq::empty()
    } else {
        merge_into(merged(ls.drop_last()), ls.last())
    }
}

/// The links whose last search answer lists address `a`.
pub open spec fn links_knowing(cs: Seq<Connection>, a: Seq<u8>) -> Seq<usize>
    decreases cs.len(),
{
    if cs.len() == 0 {
        Seq::empty()
    } else {
        let r = links_knowing(cs.drop_last(), a);
        if adresses_view(cs.last().adresses@).contains(a) {
            r.push((cs.len() - 1) as usize)
        } else {
            r
        }
    }
}

/// Whether the address is in the list.
pub fn list_has(l: &Vec<Adress>, a: &Adress) -> (r: bool)
    ensures
        r == adresses_view(l@).contains(a@),
{
    let mut i: usize = 0;
    while i < l.len()
        invariant
            i <= l@.len(),
            forall|k: int| 0 <= k < i ==> l@[k]@ != a@,
        decreases l@.len() - i,
    {
        if same_adress(&l[i], a) {
            assert(adresses_view(l@)[i as int] == a@);
            return true;
        }
        i += 1;
    }
    false
}

/// Adds to `acc` each address of `l` that it lacks, in order.
pub fn merge_adresses(acc: &mut Vec<Adress>, l: Vec<Adress>)
    ensures
        adresses_view(final(acc)@) == merge_into(adresses_view(old(acc)@), adresses_view(l@)),
{
    let ghost a0 = adresses_view(acc@);
    let mut i: usize = 0;
    while i < l.len()
        invariant
            i <= l@.len(),
            adresses_view(acc@) == merge_into(a0, adresses_view(l@.subrange(0, i as int))),
        decreases l@.len() - i,
    {
        let ghost prev = acc@;
        proof {
            assert(adresses_view(l@.subrange(0, i + 1)).drop_last() =~= adresses_view(l@.subrange(0, i as int)));
            assert(adresses_view(l@.subrange(0, i + 1)).last() == l@[i as int]@);
        }
        if !list_has(acc, &l[i]) {
            acc.push(copy_adress(&l[i]));
            assert(adresses_view(acc@) =~= adresses_view(prev).push(l@[i as int]@));
        }
        i += 1;
    }
    assert(l@.subrange(0, l@.len() as int) =~= l@);
}

/// A client's links to its relays.
#[derive(Debug)]
pub struct RelayClient {
    pub connections: Vec<Connection>,
    pub connection_errors: Vec<ConnectionError>,
    pub info: ConnectionInfo,
}

impl RelayClient {
    /// A client from the links that were made to `asked` relays: refused
    /// when no relay was named, or when no link could be made.
    pub fn new(
        info: ConnectionInfo,
        asked: usize,
        connections: Vec<Connection>,
        connection_errors: Vec<ConnectionError>,
    ) -> (r: Result<RelayClient, RelayClientError>)
        ensures
            asked == 0 ==> r matches Err(RelayClientError::NoRelays),
            asked > 0 && connections@.len() == 0 ==> r matches Err(RelayClientError::NoConnections),
            asked > 0 && connections@.len() > 0 ==> (r matches Ok(c) && c.connections
                == connections && c.info == info && c.connection_errors == connection_errors),
    {
        if asked == 0 {
            return Err(RelayClientError::NoRelays);
        }
        if connections.len() == 0 {
            return Err(RelayClientError::NoConnections);
        }
        Ok(RelayClient { connections, connection_errors, info })
    }

    /// The link at `index`, if there is one.
    pub fn get(&self, index: usize) -> (r: Option<&Connection>)
        ensures
            index < self.connections@.len() ==> r == Some(&self.connections@[index as int]),
            index >= self.connections@.len() ==> r is None,
    {
        if index < self.connections.len() {
            Some(&self.connections[index])
        } else {
            None
        }
    }

    /// The links whose last search answer lists `adress`, in order.
    pub fn where_is_adress(&self, adress: &Adress) -> (r: Vec<usize>)
        ensures
            r@ == links_knowing(self.connections@, adress@),
    {
        let mut r: Vec<usize> = Vec::new();
        let mut i: usize = 0;
        while i < self.connections.len()
            invariant
                i <= self.connections@.len(),
                r@ == links_knowing(self.connections@.subrange(0, i as int), adress@),
            decreases self.connections@.len() - i,
        {
            proof {
                assert(self.connections@.subrange(0, i + 1).drop_last() =~= self.connections@.subrange(0, i as int));
            }
            if list_has(&self.connections[i].adresses, adress) {
                r.push(i);
            }
            i += 1;
        }
        assert(self.connections@.subrange(0, self.connections@.len() as int) =~= self.connections@);
        r
    }

    /// Whether every link holds a search answer.
    pub fn search_done(&self) -> (r: bool)
        ensures
            r == forall|k: int|
                0 <= k < self.connections@.len() ==> any_wanted(
                    #[trigger] self.connections@[k].packets@,
                    (0nat, Seq::<u8>::empty()),
                ),
    {
        let mut i: usize = 0;
        while i < self.connections.len()
            invariant
                i <= self.connections@.len(),
                forall|k: int|
                    0 <= k < i ==> any_wanted(
                        #[trigger] self.connections@[k].packets@,
                        (0nat, Seq::<u8>::empty()),
                    ),
            decreases self.connections@.len() - i,
        {
            if !self.connections[i].has(&Wanted::SearchResponse) {
                return false;
            }
            i += 1;
        }
        true
    }

    /// Takes one search answer from each link and merges them: every
    /// address once, in order of first appearance.
    pub fn collect_search(&mut self) -> (r: Vec<Adress>)
        ensures
            final(self).connections@.len() == old(self).connections@.len(),
            adresses_view(r@) == merged(search_answers(old(self).connections@)),
            forall|k: int|
                0 <= k < old(self).connections@.len() ==> taken_answer(
                    old(self).connections@[k],
                    #[trigger] final(self).connections@[k],
                ),
    {
        let ghost c0 = self.connections@;
        let mut acc: Vec<Adress> = Vec::new();
        let mut i: usize = 0;
        proof {
            assert(search_answers(c0).subrange(0, 0) =~= Seq::<Seq<Seq<u8>>>::empty());
            assert(adresses_view(acc@) =~= Seq::<Seq<u8>>::empty());
        }
        while i < self.connections.len()
            invariant
                i <= self.connections@.len(),
                self.connections@.len() == c0.len(),
                c0 == old(self).connections@,
                forall|k: int| i <= k < c0.len() ==> #[trigger] self.connections@[k] == c0[k],
                forall|k: int| 0 <= k < i ==> taken_answer(c0[k], #[trigger] self.connections@[k]),
                adresses_view(acc@) == merged(search_answers(c0).subrange(0, i as int)),
            decreases self.connections@.len() - i,
        {
            let ghost before = adresses_view(acc@);
            let ghost answer = search_answer(c0[i as int]);
            proof {
                assert(search_answers(c0).subrange(0, i + 1).drop_last() =~= search_answers(c0).subrange(0, i as int));
                assert(search_answers(c0).subrange(0, i + 1).last() == answer);
            }
            match self.connections[i].take_search() {
                Some(l) => merge_adresses(&mut acc, l),
                None => {
                    assert(merge_into(before, answer) =~= before);
                },
            }
            i += 1;
        }
        proof {
            assert(search_answers(c0).subrange(0, c0.len() as int) =~= search_answers(c0));
        }
        acc
    }

    /// The first handshake step queued on any link, with the link's index.
    pub fn has_new(&mut self) -> (r: Option<(usize, RequestStage)>)
        ensures
            final(self).connections@.len() == old(self).connections@.len(),
            r is None ==> forall|k: int|
                0 <= k < old(self).connections@.len() ==> !any_wanted(
                    #[trigger] old(self).connections@[k].packets@,
                    (5nat, Seq::<u8>::empty()),
                ),
            r matches Some((k, st)) ==> k < old(self).connections@.len() && any_wanted(
                old(self).connections@[k as int].packets@,
                (5nat, Seq::<u8>::empty()),
            ) && stage_of(
                old(self).connections@[k as int].packets@[first_wanted(
                    old(self).connections@[k as int].packets@,
                    (5nat, Seq::<u8>::empty()),
                )],
                st,
            ) && forall|j: int|
                0 <= j < k ==> !any_wanted(
                    #[trigger] old(self).connections@[j].packets@,
                    (5nat, Seq::<u8>::empty()),
                ),
            r is None ==> final(self).connections@ == old(self).connections@,
            r matches Some((k, _)) ==> final(self).connections@[k as int].packets@
                == old(self).connections@[k as int].packets@.remove(
                first_wanted(old(self).connections@[k as int].packets@, (5nat, Seq::<u8>::empty())),
            ) && final(self).connections@[k as int].session == old(self).connections@[k as int].session
                && forall|j: int|
                0 <= j < old(self).connections@.len() && j != k
                    ==> #[trigger] final(self).connections@[j] == old(self).connections@[j],
    {
        let mut i: usize = 0;
        while i < self.connections.len()
            invariant
                i <= self.connections@.len(),
                self.connections@ == old(self).connections@,
                forall|k: int|
                    0 <= k < i ==> !any_wanted(
                        #[trigger] self.connections@[k].packets@,
                        (5nat, Seq::<u8>::empty()),
                    ),
            decreases self.connections@.len() - i,
        {
            match self.connections[i].has_new() {
                Some(stage) => return Some((i, stage)),
                None => {},
            }
            i += 1;
        }
        None
    }
}

} // verus!
