//! The relay's per-message dispatch: registration, liveness and eviction,
//! and routing of the session-scoped messages to their handlers.
use vstd::prelude::*;

use crate::codec::{from_wire, packet_view, parse_packet};
use crate::directory::{info_effect, search_effect};
use crate::handshake::{final_effect, lemma_owner_unique, request_effect, response_effect};
use crate::packets::{Packets, Register, RegisterResponse};
use crate::registry::{
    adress_of, clients_wf, holds_adress, intents, is_registered, pool, record, Client,
    ClientStage, Connecting, Outgoing, RegisteredClient, RelayServer,
};

verus! {

/// The reply to a client registration.
pub open spec fn register_reply(o: Outgoing, to: usize, accepted: bool, session: usize) -> bool {
    &&& o.session == to
    &&& match o.packet {
        Packets::RegisterResponse(RegisterResponse::Client { accepted: a, session: s }) => a
            == accepted && s == session,
        _ => false,
    }
}

/// Some client other than `i` is registered under address `a`.
pub open spec fn taken_by_other(s: Seq<Client>, i: int, a: Seq<u8>) -> bool {
    exists|j: int| 0 <= j < s.len() && j != i && holds_adress(s[j], a)
}

/// The client is silent for at least `timeout` ns at time `now`.
pub open spec fn is_stale(c: Client, now: u128, timeout: u128) -> bool {
    c.last_message <= now && now - c.last_message >= timeout
}

pub open spec fn fresh(now: u128, timeout: u128) -> spec_fn(Client) -> bool {
    |c: Client| !is_stale(c, now, timeout)
}

pub open spec fn stale_sessions(s: Seq<Client>, now: u128, timeout: u128) -> Seq<usize>
    decreases s.len(),
{
    if s.len() == 0 {
        Seq::empty()
    } else {
        let r = stale_sessions(s.drop_last(), now, timeout);
        if is_stale(s.last(), now, timeout) {
            r.push(s.last().session)
        } else {
            r
        }
    }
}

/// Removing one client keeps the registry well formed.
pub proof fn lemma_remove_wf(s: Seq<Client>, i: int)
    requires
        clients_wf(s),
        0 <= i < s.len(),
    ensures
        clients_wf(s.remove(i)),
{
    let r = s.remove(i);
    assert forall|a: int| 0 <= a < r.len() implies #[trigger] r[a].session != 0 by {
        if a < i {
            assert(r[a] == s[a]);
        } else {
            assert(r[a] == s[a + 1]);
        }
    }
    assert forall|a: int, b: int|
        0 <= a < r.len() && 0 <= b < r.len() && a != b implies #[trigger] r[a].session
        != #[trigger] r[b].session by {
        let x = if a < i { a } else { a + 1 };
        let y = if b < i { b } else { b + 1 };
        assert(r[a] == s[x] && r[b] == s[y]);
    }
    assert forall|a: int, b: int|
        0 <= a < r.len() && 0 <= b < r.len() && a != b && is_registered(#[trigger] r[a])
            && is_registered(#[trigger] r[b]) implies adress_of(r[a]) != adress_of(r[b]) by {
        let x = if a < i { a } else { a + 1 };
        let y = if b < i { b } else { b + 1 };
        assert(r[a] == s[x] && r[b] == s[y]);
    }
}

/// What `on_register_client` does, from registry `s` and outbox `o0` to `n` and `o1`.
pub open spec fn register_client_effect(
    s0: Seq<Client>,
    n: Seq<Client>,
    o0: Seq<Outgoing>,
    o1: Seq<Outgoing>,
    index: usize,
    client: String,
    public: Vec<u8>,
    name: String,
    other: Vec<u8>,
    privacy: bool,
    private_adress: String,
) -> bool {
    let s = s0;
    &&& o1.drop_last() =~= o0
    &&& o1.len() == o0.len() + 1
    &&& {
        let s = s;
        let n = n;
        let a = s[index as int];
        if taken_by_other(s, index as int, public@) {
            &&& n =~= s
            &&& register_reply(o1.last(), a.session, false, 0)
        } else {
            &&& register_reply(o1.last(), a.session, true, a.session)
            &&& n.len() == s.len()
            &&& forall|j: int| 0 <= j < s.len() && j != index ==> n[j] == s[j]
            &&& n[index as int].session == a.session
            &&& n[index as int].from == a.from
            &&& n[index as int].last_message == a.last_message
            &&& is_registered(n[index as int])
            &&& adress_of(n[index as int]) == public@
            &&& record(n[index as int]).name == name
            &&& record(n[index as int]).client == client
            &&& record(n[index as int]).other == other
            &&& record(n[index as int]).privacy == privacy
            &&& record(n[index as int]).private_adress == private_adress
            &&& intents(n[index as int]) == Seq::<Connecting>::empty()
            &&& pool(n[index as int]) == Seq::<u16>::empty()
        }
    }
}

/// What `on_register_port` does, from registry `s` and outbox `o0` to `n` and `o1`.
pub open spec fn register_port_effect(
    s0: Seq<Client>,
    n: Seq<Client>,
    o0: Seq<Outgoing>,
    o1: Seq<Outgoing>,
    index: usize,
    session: usize,
) -> bool {
    let s = s0;
    &&& o1.drop_last() =~= o0
    &&& o1.len() == o0.len() + 1
    &&& {
        let s = s;
        let me = s[index as int];
        if port_grant(s, index as int, session) {
            let p = choose|p: int| 0 <= p < s.len() && grants(s, index as int, p, session);
            &&& crate::registry::lists_changed(
                s,
                n,
                p,
                intents(s[p]),
                pool(s[p]).push(me.from.port),
            )
            &&& o1.last().session == me.session
            &&& o1.last().packet == Packets::RegisterResponse(
                RegisterResponse::Port { port: me.from.port },
            )
        } else {
            &&& n =~= s
            &&& register_reply(o1.last(), me.session, false, session)
        }
    }
}

impl RelayServer {
    /// A connection accepted at time `now` from `from` joins the registry,
    /// not yet registered, under a fresh handle.
    pub fn accept_new(&mut self, from: crate::registry::Endpoint, now: u128) -> (r: usize)
        requires
            old(self).wf(),
            old(self).clients@.len() < usize::MAX,
        ensures
            final(self).wf(),
            final(self).client_timeout == old(self).client_timeout,
            final(self).clients@.drop_last() == old(self).clients@,
            final(self).clients@.len() == old(self).clients@.len() + 1,
            final(self).clients@.last().session == r,
            !is_registered(final(self).clients@.last()),
            final(self).clients@.last().last_message == now,
            final(self).clients@.last().from == from,
            r != 0,
            forall|i: int| 0 <= i < old(self).clients@.len() ==> #[trigger] old(self).clients@[i].session != r,
    {
        let session = self.create_session();
        self.clients.push(Client { session, from, stage: ClientStage::NotRegistered, last_message: now });
        proof {
            let s = self.clients@;
            assert(s.drop_last() =~= old(self).clients@);
            assert forall|a: int, b: int|
                0 <= a < s.len() && 0 <= b < s.len() && a != b implies #[trigger] s[a].session
                != #[trigger] s[b].session by {
                if a < s.len() - 1 && b < s.len() - 1 {
                    assert(s[a] == old(self).clients@[a] && s[b] == old(self).clients@[b]);
                } else if a < s.len() - 1 {
                    assert(s[a] == old(self).clients@[a]);
                } else if b < s.len() - 1 {
                    assert(s[b] == old(self).clients@[b]);
                }
            }
            assert forall|a: int| 0 <= a < s.len() implies #[trigger] s[a].session != 0 by {
                if a < s.len() - 1 {
                    assert(s[a] == old(self).clients@[a]);
                }
            }
        }
        session
    }

    /// Client `index` registers. Refused (accepted = false, session 0) when
    /// another registered client holds the address; else the client is
    /// registered under it with the given details and a fresh record (no
    /// spare ports, no intents, also when it was registered before), and is
    /// told its session.
    pub fn on_register_client(
        &mut self,
        index: usize,
        client: String,
        public: Vec<u8>,
        name: String,
        other: Vec<u8>,
        privacy: bool,
        private_adress: String,
        out: &mut Vec<Outgoing>,
    )
        requires
            old(self).wf(),
            index < old(self).clients@.len(),
        ensures
            final(self).wf(),
            final(self).client_timeout == old(self).client_timeout,
            register_client_effect(
                old(self).clients@,
                final(self).clients@,
                old(out)@,
                final(out)@,
                index,
                client,
                public,
                name,
                other,
                privacy,
                private_adress,
            ),
    {
        let ghost s = self.clients@;
        let session = self.clients[index].session;
        let taken = match self.owner_of(&public) {
            Some(t) => {
                proof {
                    lemma_owner_unique(s, public@, t as int);
                    if taken_by_other(s, index as int, public@) {
                        let j = choose|j: int| 0 <= j < s.len() && j != index && holds_adress(s[j], public@);
                        lemma_owner_unique(s, public@, j);
                    }
                }
                t != index
            },
            None => false,
        };
        if taken {
            out.push(
                Outgoing {
                    session,
                    packet: Packets::RegisterResponse(
                        RegisterResponse::Client { accepted: false, session: 0 },
                    ),
                },
            );
            return ;
        }
        self.clients[index].stage = ClientStage::Registered(
            RegisteredClient {
                name,
                client,
                other,
                adress: public,
                ports: Vec::new(),
                to_connect: Vec::new(),
                privacy,
                private_adress,
            },
        );
        proof {
            let n = self.clients@;
            assert forall|a: int, b: int|
                0 <= a < n.len() && 0 <= b < n.len() && a != b && is_registered(#[trigger] n[a])
                    && is_registered(#[trigger] n[b]) implies adress_of(n[a]) != adress_of(n[b]) by {
                if a == index {
                    assert(!holds_adress(s[b], public@));
                } else if b == index {
                    assert(!holds_adress(s[a], public@));
                } else {
                    assert(n[a] == s[a] && n[b] == s[b]);
                }
            }
            assert forall|a: int| 0 <= a < n.len() implies #[trigger] n[a].session != 0 by {
                if a != index {
                    assert(n[a] == s[a]);
                }
            }
            assert forall|a: int, b: int|
                0 <= a < n.len() && 0 <= b < n.len() && a != b implies #[trigger] n[a].session
                != #[trigger] n[b].session by {
                assert(n[a].session == s[a].session && n[b].session == s[b].session);
            }
        }
        out.push(
            Outgoing {
                session,
                packet: Packets::RegisterResponse(
                    RegisterResponse::Client { accepted: true, session },
                ),
            },
        );
    }

    /// A second connection of client `session` offers its source port. The
    /// port joins that client's pool when the client is registered and both
    /// connections come from one IPv4 address; the offering connection is
    /// told the port, or refused (accepted = false) otherwise.
    pub fn on_register_port(&mut self, index: usize, session: usize, out: &mut Vec<Outgoing>)
        requires
            old(self).wf(),
            index < old(self).clients@.len(),
        ensures
            final(self).wf(),
            final(self).client_timeout == old(self).client_timeout,
            register_port_effect(
                old(self).clients@,
                final(self).clients@,
                old(out)@,
                final(out)@,
                index,
                session,
            ),
    {
        let ghost s = self.clients@;
        let me = self.clients[index].session;
        let port = self.clients[index].from.port;
        let parent = self.index_of(session);
        let granted = match parent {
            Some(p) => {
                let ok = self.clients[index].from.v4 && self.clients[p].from.v4
                    && self.clients[p].from.ip == self.clients[index].from.ip
                    && match &self.clients[p].stage {
                    ClientStage::Registered(_) => true,
                    ClientStage::NotRegistered => false,
                };
                proof {
                    lemma_grant_at(s, index as int, p as int, session);
                }
                if ok {
                    self.push_port(p, port);
                    proof {
                        crate::registry::lemma_same_but_lists_wf(s, self.clients@);
                    }
                }
                ok
            },
            None => false,
        };
        if granted {
            out.push(
                Outgoing {
                    session: me,
                    packet: Packets::RegisterResponse(RegisterResponse::Port { port }),
                },
            );
        } else {
            out.push(
                Outgoing {
                    session: me,
                    packet: Packets::RegisterResponse(
                        RegisterResponse::Client { accepted: false, session },
                    ),
                },
            );
        }
    }

    /// Drops every client silent for `client_timeout` ns or more at time
    /// `now`, keeping the others in order; returns the dropped sessions.
    pub fn evict_stale(&mut self, now: u128) -> (r: Vec<usize>)
        requires
            old(self).wf(),
        ensures
            final(self).wf(),
            final(self).client_timeout == old(self).client_timeout,
            final(self).clients@ == old(self).clients@.filter(
                fresh(now, old(self).client_timeout),
            ),
            r@ == stale_sessions(old(self).clients@, now, old(self).client_timeout),
    {
        let ghost s = self.clients@;
        let ghost f = fresh(now, self.client_timeout);
        let timeout = self.client_timeout;
        let mut removed: Vec<usize> = Vec::new();
        let mut i: usize = 0;
        let ghost mut j: int = 0;
        proof {
            assert(s.subrange(0, 0).filter(f) =~= Seq::<Client>::empty());
            assert(self.clients@ =~= s.subrange(0, 0).filter(f) + s.subrange(0, s.len() as int));
        }
        while i < self.clients.len()
            invariant
                self.wf(),
                self.client_timeout == timeout,
                timeout == old(self).client_timeout,
                s == old(self).clients@,
                f == fresh(now, timeout),
                0 <= j <= s.len(),
                i == s.subrange(0, j).filter(f).len(),
                self.clients@ == s.subrange(0, j).filter(f) + s.subrange(j, s.len() as int),
                removed@ == stale_sessions(s.subrange(0, j), now, timeout),
            decreases self.clients@.len() - i,
        {
            let ghost pre = s.subrange(0, j);
            let ghost kept = pre.filter(f);
            proof {
                assert(self.clients@[i as int] == s[j]);
                assert(s.subrange(0, j + 1) =~= pre.push(s[j]));
                pre.lemma_filter_push(s[j], f);
                assert(s.subrange(0, j + 1).drop_last() =~= pre);
            }
            let c = &self.clients[i];
            let stale = c.last_message <= now && now - c.last_message >= timeout;
            if stale {
                let session = self.clients[i].session;
                proof {
                    lemma_remove_wf(self.clients@, i as int);
                }
                self.clients.remove(i);
                removed.push(session);
                proof {
                    assert(self.clients@ =~= kept + s.subrange(j + 1, s.len() as int));
                }
            } else {
                i += 1;
                proof {
                    assert(self.clients@ =~= kept.push(s[j]) + s.subrange(j + 1, s.len() as int));
                }
            }
            proof {
                j = j + 1;
            }
        }
        proof {
            assert(j == s.len()) by {
                if j < s.len() {
                    assert(self.clients@.len() == i + (s.len() - j));
                }
            }
            assert(s.subrange(0, j) =~= s);
            assert(self.clients@ =~= s.filter(f));
        }
        removed
    }
}

/// The registry with the last traffic of client `index` set to `now`.
pub open spec fn touched(s: Seq<Client>, index: int, now: u128) -> Seq<Client> {
    s.update(index, Client { last_message: now, ..s[index] })
}

/// What handling `packet` from client `index` at time `now` does, from
/// registry `s` and outbox `o0` to `n` and `o1`.
pub open spec fn dispatch_effect(
    s: Seq<Client>,
    n: Seq<Client>,
    o0: Seq<Outgoing>,
    o1: Seq<Outgoing>,
    index: usize,
    packet: Packets,
    now: u128,
) -> bool {
    let t = touched(s, index as int, now);
    match packet {
        Packets::Register(
            Register::Client { client, public, name, other, privacy, private_adress },
        ) => register_client_effect(
            s,
            n,
            o0,
            o1,
            index,
            client,
            public,
            name,
            other,
            privacy,
            private_adress,
        ),
        Packets::Register(Register::Port { session }) => register_port_effect(
            s,
            n,
            o0,
            o1,
            index,
            session,
        ),
        Packets::UnRegister(_) => n =~= touched(s, index as int, 0) && o1 =~= o0,
        Packets::Search(q) => search_effect(t, n, o0, o1, index, q),
        Packets::InfoRequest(q) => info_effect(t, n, o0, o1, index, q),
        Packets::Request(q) => request_effect(t, n, o0, o1, index, q),
        Packets::RequestResponse(q) => response_effect(t, n, o0, o1, index, q),
        Packets::RequestFinal(q) => final_effect(t, n, o0, o1, index, q),
        Packets::Tick { .. } => n =~= t && o1 =~= o0,
        _ => n =~= s && o1 =~= o0,
    }
}

impl RelayServer {
    /// Records traffic from client `index` at time `now`.
    pub fn touch(&mut self, index: usize, now: u128)
        requires
            old(self).wf(),
            index < old(self).clients@.len(),
        ensures
            final(self).wf(),
            final(self).client_timeout == old(self).client_timeout,
            final(self).clients@ == touched(old(self).clients@, index as int, now),
    {
        let ghost s = self.clients@;
        self.clients[index].last_message = now;
        proof {
            let n = self.clients@;
            assert forall|a: int| 0 <= a < n.len() implies #[trigger] n[a].session != 0 by {
                assert(n[a].session == s[a].session);
            }
            assert forall|a: int, b: int|
                0 <= a < n.len() && 0 <= b < n.len() && a != b implies #[trigger] n[a].session
                != #[trigger] n[b].session by {
                assert(n[a].session == s[a].session && n[b].session == s[b].session);
            }
            assert forall|a: int, b: int|
                0 <= a < n.len() && 0 <= b < n.len() && a != b && is_registered(#[trigger] n[a])
                    && is_registered(#[trigger] n[b]) implies adress_of(n[a]) != adress_of(n[b]) by {
                assert(n[a].stage == s[a].stage && n[b].stage == s[b].stage);
            }
        }
    }

    /// Handles one message from client `index` received at time `now`. The
    /// sender's own session stands for whatever session the message names.
    /// Register goes to registration; UnRegister marks the client for
    /// eviction; Search, InfoRequest, Request, RequestResponse and
    /// RequestFinal refresh the client's liveness and go to their handlers;
    /// Tick only refreshes liveness; messages that only the relay sends are
    /// ignored.
    pub fn process_packet(&mut self, index: usize, packet: Packets, now: u128, out: &mut Vec<Outgoing>)
        requires
            old(self).wf(),
            index < old(self).clients@.len(),
        ensures
            final(self).wf(),
            final(self).client_timeout == old(self).client_timeout,
            final(self).clients@.len() == old(self).clients@.len(),
            forall|j: int|
                0 <= j < old(self).clients@.len() ==> #[trigger] final(self).clients@[j].session
                    == old(self).clients@[j].session,
            final(out)@.len() >= old(out)@.len(),
            final(out)@.subrange(0, old(out)@.len() as int) == old(out)@,
            dispatch_effect(
                old(self).clients@,
                final(self).clients@,
                old(out)@,
                final(out)@,
                index,
                packet,
                now,
            ),
    {
        let ghost o = out@;
        proof {
            assert(o.subrange(0, o.len() as int) =~= o);
        }
        match packet {
            Packets::Register(Register::Client { client, public, name, other, privacy, private_adress }) => {
                self.on_register_client(index, client, public, name, other, privacy, private_adress, out);
            },
            Packets::Register(Register::Port { session }) => {
                self.on_register_port(index, session, out);
            },
            Packets::UnRegister(_) => {
                self.touch(index, 0);
            },
            Packets::Search(search) => {
                self.touch(index, now);
                self.on_search(index, search, out);
            },
            Packets::InfoRequest(info) => {
                self.touch(index, now);
                self.on_info(index, info, out);
            },
            Packets::Request(request) => {
                self.touch(index, now);
                self.on_request(index, request, out);
            },
            Packets::RequestResponse(rr) => {
                self.touch(index, now);
                self.on_request_response(index, rr, out);
            },
            Packets::RequestFinal(rf) => {
                self.touch(index, now);
                self.on_request_final(index, rf, out);
            },
            Packets::Tick { .. } => {
                self.touch(index, now);
            },
            _ => {},
        }
        proof {
            if out@.len() > o.len() {
                assert(out@.subrange(0, o.len() as int) =~= out@.drop_last());
            }
        }
    }
}

impl RelayServer {
    /// Handles what came from the client of `session` at time `now` (see
    /// `receive`); false when no client has that session.
    pub fn process_client(&mut self, session: usize, bytes: &[u8], now: u128, out: &mut Vec<Outgoing>) -> (r: bool)
        requires
            old(self).wf(),
        ensures
            final(self).wf(),
            final(self).client_timeout == old(self).client_timeout,
            r == exists|i: int| 0 <= i < old(self).clients@.len() && #[trigger] old(self).clients@[i].session == session,
            !r ==> final(self).clients@ == old(self).clients@ && final(out)@ == old(out)@,
            r ==> exists|i: int|
                0 <= i < old(self).clients@.len() && #[trigger] old(self).clients@[i].session == session
                    && receive_effect(
                    old(self).clients@,
                    final(self).clients@,
                    old(out)@,
                    final(out)@,
                    i as usize,
                    bytes@,
                    now,
                ),
    {
        match self.index_of(session) {
            Some(i) => {
                self.receive(i, bytes, now, out);
                assert(old(self).clients@[i as int].session == session);
                true
            },
            None => false,
        }
    }

    /// Handles what came from client `index` at time `now`: the wire bytes
    /// of one message. Bytes that hold no message are dropped.
    pub fn receive(&mut self, index: usize, bytes: &[u8], now: u128, out: &mut Vec<Outgoing>)
        requires
            old(self).wf(),
            index < old(self).clients@.len(),
        ensures
            final(self).wf(),
            final(self).client_timeout == old(self).client_timeout,
            receive_effect(
                old(self).clients@,
                final(self).clients@,
                old(out)@,
                final(out)@,
                index,
                bytes@,
                now,
            ),
    {
        match from_wire(bytes) {
            Some(p) => self.process_packet(index, p, now, out),
            None => {
                proof {
                    assert(out@.subrange(0, out@.len() as int) =~= out@);
                }
            },
        }
    }
}

/// What handling the wire bytes `b` from client `index` at time `now` does,
/// from registry `s` and outbox `o0` to `n` and `o1`: handles are kept, and
/// the message the bytes hold is dispatched; bytes that hold none change
/// nothing.
pub open spec fn receive_effect(
    s: Seq<Client>,
    n: Seq<Client>,
    o0: Seq<Outgoing>,
    o1: Seq<Outgoing>,
    index: usize,
    b: Seq<u8>,
    now: u128,
) -> bool {
    &&& n.len() == s.len()
    &&& forall|j: int| 0 <= j < s.len() ==> #[trigger] n[j].session == s[j].session
    &&& o1.len() >= o0.len()
    &&& o1.subrange(0, o0.len() as int) =~= o0
    &&& match parse_packet(b.reverse()) {
        None => n =~= s && o1 =~= o0,
        Some(v) => exists|q: Packets| packet_view(q) == v && dispatch_effect(s, n, o0, o1, index, q, now),
    }
}

/// Client `p` is the registered client of `session`, and it and client `i`
/// are both seen from one IPv4 address.
pub open spec fn grants(s: Seq<Client>, i: int, p: int, session: usize) -> bool {
    &&& s[p].session == session
    &&& is_registered(s[p])
    &&& s[i].from.v4
    &&& s[p].from.v4
    &&& s[p].from.ip@ == s[i].from.ip@
}

pub open spec fn port_grant(s: Seq<Client>, i: int, session: usize) -> bool {
    exists|p: int| 0 <= p < s.len() && grants(s, i, p, session)
}

/// With distinct handles the client of `session` is the only candidate.
pub proof fn lemma_grant_at(s: Seq<Client>, i: int, p: int, session: usize)
    requires
        clients_wf(s),
        0 <= p < s.len(),
        s[p].session == session,
    ensures
        port_grant(s, i, session) <==> grants(s, i, p, session),
        port_grant(s, i, session) ==> (choose|q: int| 0 <= q < s.len() && grants(s, i, q, session))
            == p,
{
    if port_grant(s, i, session) {
        let q = choose|q: int| 0 <= q < s.len() && grants(s, i, q, session);
        if q != p {
            assert(s[q].session != s[p].session);
        }
    }
}

} // verus!
