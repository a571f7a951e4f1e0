//! The relay's session registry: who is connected, who is registered under
//! which public address, which ports each client offers and which pairings
//! it has in flight.
use vstd::prelude::*;
use vstd::set_lib::*;

use crate::packets::{Adress, Packets, Register, RegisterResponse};

verus! {

/// A pairing intent held by one client towards the client of another session.
#[derive(Clone, Copy, Debug, PartialEq, Eq, Structural)]
pub enum Connecting {
    /// A request was sent or accepted; the final step is still missing.
    Start(usize),
    /// Both sides completed the final step, with the agreed time offset (ns).
    Finishing(usize, u128),
}

impl Connecting {
    /// The session of the other side.
    pub open spec fn peer(self) -> usize {
        match self {
            Connecting::Start(s) => s,
            Connecting::Finishing(s, _) => s,
        }
    }

    pub fn session(&self) -> (r: usize)
        ensures
            r == self.peer(),
    {
        match self {
            Connecting::Start(s) => *s,
            Connecting::Finishing(s, _) => *s,
        }
    }
}

/// What the relay knows of a registered client.
#[derive(Debug)]
pub struct RegisteredClient {
    pub name: String,
    pub client: String,
    pub other: Vec<u8>,
    pub adress: Adress,
    pub ports: Vec<u16>,
    pub to_connect: Vec<Connecting>,
    pub privacy: bool,
    pub private_adress: String,
}

#[derive(Debug)]
pub enum ClientStage {
    NotRegistered,
    Registered(RegisteredClient),
}

/// The source address of a connection as the relay observed it.
#[derive(Clone, Debug)]
pub struct Endpoint {
    /// The textual form of the IP address.
    pub ip: String,
    /// Whether the address is an IPv4 one.
    pub v4: bool,
    pub port: u16,
}

/// One accepted control connection.
#[derive(Debug)]
pub struct Client {
    pub session: usize,
    pub from: Endpoint,
    pub stage: ClientStage,
    /// Time of the last application traffic, in ns since the epoch; 0 marks a
    /// connection that is to be dropped.
    pub last_message: u128,
}

/// A message the relay is to send to the client of `session`.
#[derive(Debug)]
pub struct Outgoing {
    pub session: usize,
    pub packet: Packets,
}

/// The relay's state: every connected client, in order of arrival.
#[derive(Debug)]
pub struct RelayServer {
    pub clients: Vec<Client>,
    /// Silence (ns) after which a client is dropped.
    pub client_timeout: u128,
}

#[derive(Debug)]
pub enum RelayServerError {
    CannotCreatePoller,
}

pub open spec fn is_registered(c: Client) -> bool {
    c.stage is Registered
}

pub open spec fn record(c: Client) -> RegisteredClient {
    c.stage->Registered_0
}

/// The public address a client registered, as bytes.
pub open spec fn adress_of(c: Client) -> Seq<u8> {
    record(c).adress@
}

/// The client's pairing intents (none before registration).
pub open spec fn intents(c: Client) -> Seq<Connecting> {
    if is_registered(c) {
        record(c).to_connect@
    } else {
        Seq::empty()
    }
}

/// The client's spare ports (none before registration).
pub open spec fn pool(c: Client) -> Seq<u16> {
    if is_registered(c) {
        record(c).ports@
    } else {
        Seq::empty()
    }
}

pub open spec fn holds_adress(c: Client, a: Seq<u8>) -> bool {
    is_registered(c) && adress_of(c) == a
}

/// Handles are non-zero and pairwise distinct.
pub open spec fn sessions_distinct(s: Seq<Client>) -> bool {
    &&& forall|i: int| 0 <= i < s.len() ==> #[trigger] s[i].session != 0
    &&& forall|i: int, j: int|
        0 <= i < s.len() && 0 <= j < s.len() && i != j ==> #[trigger] s[i].session
            != #[trigger] s[j].session
}

/// No two registered clients share a public address.
pub open spec fn adresses_distinct(s: Seq<Client>) -> bool {
    forall|i: int, j: int|
        0 <= i < s.len() && 0 <= j < s.len() && i != j && is_registered(#[trigger] s[i])
            && is_registered(#[trigger] s[j]) ==> adress_of(s[i]) != adress_of(s[j])
}

/// Some client holds the handle.
pub open spec fn session_used(s: Seq<Client>, v: int) -> bool {
    exists|i: int| 0 <= i < s.len() && #[trigger] s[i].session == v
}

pub open spec fn clients_wf(s: Seq<Client>) -> bool {
    sessions_distinct(s) && adresses_distinct(s)
}

/// Two records of one client that differ at most in ports and intents.
pub open spec fn same_but_lists(a: Client, b: Client) -> bool {
    &&& a.session == b.session
    &&& a.from == b.from
    &&& a.last_message == b.last_message
    &&& match (a.stage, b.stage) {
        (ClientStage::NotRegistered, ClientStage::NotRegistered) => true,
        (ClientStage::Registered(x), ClientStage::Registered(y)) => {
            &&& x.name == y.name
            &&& x.client == y.client
            &&& x.other == y.other
            &&& x.adress == y.adress
            &&& x.privacy == y.privacy
            &&& x.private_adress == y.private_adress
        },
        _ => false,
    }
}

/// Every client kept, in place, with at most its lists changed.
pub open spec fn same_but_lists_all(a: Seq<Client>, b: Seq<Client>) -> bool {
    a.len() == b.len() && forall|i: int| 0 <= i < a.len() ==> same_but_lists(#[trigger] a[i], b[i])
}

/// Total number of spare ports over all clients.
pub open spec fn total_ports(s: Seq<Client>) -> int
    decreases s.len(),
{
    if s.len() == 0 {
        0
    } else {
        total_ports(s.drop_last()) + pool(s.last()).len()
    }
}

pub proof fn lemma_same_but_lists_wf(a: Seq<Client>, b: Seq<Client>)
    requires
        clients_wf(a),
        same_but_lists_all(a, b),
    ensures
        clients_wf(b),
{
    assert forall|i: int, j: int|
        0 <= i < b.len() && 0 <= j < b.len() && i != j && is_registered(#[trigger] b[i])
            && is_registered(#[trigger] b[j]) implies adress_of(b[i]) != adress_of(b[j]) by {
        assert(same_but_lists(a[i], b[i]));
        assert(same_but_lists(a[j], b[j]));
    }
    assert forall|i: int| 0 <= i < b.len() implies #[trigger] b[i].session != 0 by {
        assert(same_but_lists(a[i], b[i]));
    }
    assert forall|i: int, j: int|
        0 <= i < b.len() && 0 <= j < b.len() && i != j implies #[trigger] b[i].session
        != #[trigger] b[j].session by {
        assert(same_but_lists(a[i], b[i]));
        assert(same_but_lists(a[j], b[j]));
    }
}

/// Two registered clients of a well-formed registry never share a public
/// address. Every operation of the relay keeps the registry well formed.
pub proof fn lemma_registered_adresses_unique(s: RelayServer, i: int, j: int)
    requires
        s.wf(),
        0 <= i < s.clients@.len(),
        0 <= j < s.clients@.len(),
        i != j,
        is_registered(s.clients@[i]),
        is_registered(s.clients@[j]),
    ensures
        adress_of(s.clients@[i]) != adress_of(s.clients@[j]),
{
}

/// The session handles of a well-formed registry are non-zero and pairwise
/// distinct. Every operation of the relay keeps the registry well formed.
pub proof fn lemma_sessions_unique(s: RelayServer, i: int, j: int)
    requires
        s.wf(),
        0 <= i < s.clients@.len(),
        0 <= j < s.clients@.len(),
    ensures
        s.clients@[i].session != 0,
        i != j ==> s.clients@[i].session != s.clients@[j].session,
{
}

/// Equal pool sizes everywhere give equal totals.
pub proof fn lemma_total_ports_same(a: Seq<Client>, b: Seq<Client>)
    requires
        a.len() == b.len(),
        forall|k: int| 0 <= k < a.len() ==> pool(#[trigger] a[k]).len() == pool(b[k]).len(),
    ensures
        total_ports(a) == total_ports(b),
    decreases a.len(),
{
    if a.len() > 0 {
        lemma_total_ports_same(a.drop_last(), b.drop_last());
    }
}

/// Pool sizes equal but at `i`: the totals differ by the change at `i`.
pub proof fn lemma_total_ports_at(a: Seq<Client>, b: Seq<Client>, i: int)
    requires
        a.len() == b.len(),
        0 <= i < a.len(),
        forall|k: int|
            0 <= k < a.len() && k != i ==> pool(#[trigger] a[k]).len() == pool(b[k]).len(),
    ensures
        total_ports(b) - total_ports(a) == pool(b[i]).len() - pool(a[i]).len(),
    decreases a.len(),
{
    if i == a.len() - 1 {
        lemma_total_ports_same(a.drop_last(), b.drop_last());
    } else {
        lemma_total_ports_at(a.drop_last(), b.drop_last(), i);
    }
}

/// Relies on rand::random: a drawn handle; nothing is promised of its value.
#[verifier::external_body]
fn draw_session() -> usize {
    rand::random::<usize>()
}

/// Byte-wise equality of two addresses.
pub fn same_adress(a: &Adress, b: &Adress) -> (r: bool)
    ensures
        r == (a@ == b@),
{
    if a.len() != b.len() {
        return false;
    }
    let mut i: usize = 0;
    while i < a.len()
        invariant
            a@.len() == b@.len(),
            i <= a@.len(),
            forall|k: int| 0 <= k < i ==> a@[k] == b@[k],
        decreases a@.len() - i,
    {
        if a[i] != b[i] {
            return false;
        }
        i += 1;
    }
    assert(a@ =~= b@);
    true
}

impl RelayServer {
    pub open spec fn wf(self) -> bool {
        clients_wf(self.clients@)
    }

    /// A relay with no clients.
    pub fn new(client_timeout: u128) -> (r: Self)
        ensures
            r.wf(),
            r.clients@.len() == 0,
            r.client_timeout == client_timeout,
    {
        RelayServer { clients: Vec::new(), client_timeout }
    }

    /// Position of the client with the given session.
    pub fn index_of(&self, session: usize) -> (r: Option<usize>)
        ensures
            match r {
                Some(i) => i < self.clients@.len() && self.clients@[i as int].session == session,
                None => forall|i: int|
                    0 <= i < self.clients@.len() ==> #[trigger] self.clients@[i].session
                        != session,
            },
    {
        let mut i: usize = 0;
        while i < self.clients.len()
            invariant
                i <= self.clients@.len(),
                forall|k: int| 0 <= k < i ==> #[trigger] self.clients@[k].session != session,
            decreases self.clients@.len() - i,
        {
            if self.clients[i].session == session {
                return Some(i);
            }
            i += 1;
        }
        None
    }

    /// Position of the registered client with the given public address.
    pub fn owner_of(&self, adress: &Adress) -> (r: Option<usize>)
        ensures
            match r {
                Some(i) => i < self.clients@.len() && holds_adress(self.clients@[i as int], adress@),
                None => forall|i: int|
                    0 <= i < self.clients@.len() ==> !holds_adress(
                        #[trigger] self.clients@[i],
                        adress@,
                    ),
            },
    {
        let mut i: usize = 0;
        while i < self.clients.len()
            invariant
                i <= self.clients@.len(),
                forall|k: int|
                    0 <= k < i ==> !holds_adress(#[trigger] self.clients@[k], adress@),
            decreases self.clients@.len() - i,
        {
            match &self.clients[i].stage {
                ClientStage::Registered(r) => {
                    if same_adress(&r.adress, adress) {
                        return Some(i);
                    }
                },
                ClientStage::NotRegistered => {},
            }
            i += 1;
        }
        None
    }

    /// Whether no registered client uses the address.
    pub fn avalibile_adress(&self, adress: &Adress) -> (r: bool)
        ensures
            r == forall|i: int|
                0 <= i < self.clients@.len() ==> !holds_adress(#[trigger] self.clients@[i], adress@),
    {
        self.owner_of(adress).is_none()
    }

    /// Whether some client already has the handle (0 counts as taken).
    fn session_taken(&self, session: usize) -> (r: bool)
        ensures
            r == (session == 0 || exists|i: int|
                0 <= i < self.clients@.len() && #[trigger] self.clients@[i].session == session),
    {
        session == 0 || self.index_of(session).is_some()
    }

    /// A fresh handle: drawn at random, drawn again on collision; should the
    /// draws keep colliding, the least free handle is taken.
    pub fn create_session(&self) -> (r: usize)
        requires
            self.clients@.len() < usize::MAX,
        ensures
            r != 0,
            forall|i: int| 0 <= i < self.clients@.len() ==> #[trigger] self.clients@[i].session != r,
    {
        let mut tries: usize = 0;
        while tries < 64
            decreases 64 - tries,
        {
            let s = draw_session();
            if !self.session_taken(s) {
                return s;
            }
            tries += 1;
        }
        let n = self.clients.len();
        let mut c: usize = 1;
        while c <= n && self.session_taken(c)
            invariant
                1 <= c <= n + 1,
                n == self.clients@.len(),
                n < usize::MAX,
                forall|v: int| 1 <= v < c ==> #[trigger] session_used(self.clients@, v),
            decreases n + 1 - c,
        {
            c += 1;
        }
        if c == n + 1 {
            proof {
                self.lemma_not_all_taken();
            }
        }
        c
    }

    /// Among the handles 1 ..= n + 1 one is free, where n clients are connected.
    proof fn lemma_not_all_taken(&self)
        requires
            forall|v: int|
                1 <= v < self.clients@.len() + 1 ==> #[trigger] session_used(self.clients@, v),
        ensures
            !session_used(self.clients@, self.clients@.len() + 1 as int),
    {
        let n = self.clients@.len() as int;
        let ss = self.clients@.map_values(|c: Client| c.session as int);
        let range = set_int_range(1, n + 2);
        if session_used(self.clients@, n + 1) {
            assert(range.subset_of(ss.to_set())) by {
                assert forall|v: int| range.contains(v) implies ss.to_set().contains(v) by {
                    assert(session_used(self.clients@, v));
                    let i = choose|i: int| 0 <= i < n && #[trigger] self.clients@[i].session == v;
                    assert(ss[i] == v);
                }
            }
            ss.lemma_cardinality_of_set();
            lemma_int_range(1, n + 2);
            lemma_len_subset(range, ss.to_set());
            assert(false);
        }
    }
}

} // verus!

verus! {

/// Keeps the intents that are not about session `p`.
pub open spec fn not_with(p: usize) -> spec_fn(Connecting) -> bool {
    |c: Connecting| c.peer() != p
}

/// Turns each intent about session `p` into `Finishing(p, off)`.
pub open spec fn finisher(p: usize, off: u128) -> spec_fn(int, Connecting) -> Connecting {
    |k: int, c: Connecting|
        if c.peer() == p {
            Connecting::Finishing(p, off)
        } else {
            c
        }
}

/// `b` is `a` with the lists of client `i` replaced by the given ones.
pub open spec fn lists_changed(
    a: Seq<Client>,
    b: Seq<Client>,
    i: int,
    new_intents: Seq<Connecting>,
    new_pool: Seq<u16>,
) -> bool {
    &&& same_but_lists_all(a, b)
    &&& intents(b[i]) == new_intents
    &&& pool(b[i]) == new_pool
    &&& forall|j: int|
        0 <= j < a.len() && j != i ==> intents(#[trigger] b[j]) == intents(a[j]) && pool(b[j])
            == pool(a[j])
}

/// Removes the intents about session `p` from a list.
pub fn drop_peer(list: &mut Vec<Connecting>, p: usize)
    ensures
        final(list)@ == old(list)@.filter(not_with(p)),
{
    let mut kept: Vec<Connecting> = Vec::new();
    let mut i: usize = 0;
    while i < list.len()
        invariant
            i <= list@.len(),
            kept@ == list@.subrange(0, i as int).filter(not_with(p)),
        decreases list@.len() - i,
    {
        let c = list[i];
        proof {
            assert(list@.subrange(0, i + 1) =~= list@.subrange(0, i as int).push(c));
            list@.subrange(0, i as int).lemma_filter_push(c, not_with(p));
        }
        if c.session() != p {
            kept.push(c);
        }
        i += 1;
    }
    assert(list@.subrange(0, list@.len() as int) =~= list@);
    *list = kept;
}

/// Marks every intent about session `p` as finishing with offset `off`.
pub fn finish_peer(list: &mut Vec<Connecting>, p: usize, off: u128)
    ensures
        final(list)@ == old(list)@.map(finisher(p, off)),
{
    let ghost orig = list@;
    let mut i: usize = 0;
    while i < list.len()
        invariant
            i <= list@.len(),
            list@.len() == orig.len(),
            forall|k: int| 0 <= k < i ==> list@[k] == finisher(p, off)(k, orig[k]),
            forall|k: int| i <= k < list@.len() ==> list@[k] == orig[k],
        decreases list@.len() - i,
    {
        if list[i].session() == p {
            list.set(i, Connecting::Finishing(p, off));
        }
        i += 1;
    }
    assert(list@ =~= orig.map(finisher(p, off)));
}

impl RelayServer {
    /// Appends an intent to the list of registered client `i`.
    pub fn push_intent(&mut self, i: usize, c: Connecting)
        requires
            i < old(self).clients@.len(),
            is_registered(old(self).clients@[i as int]),
        ensures
            lists_changed(
                old(self).clients@,
                final(self).clients@,
                i as int,
                intents(old(self).clients@[i as int]).push(c),
                pool(old(self).clients@[i as int]),
            ),
            final(self).client_timeout == old(self).client_timeout,
    {
        match &mut self.clients[i].stage {
            ClientStage::Registered(r) => r.to_connect.push(c),
            ClientStage::NotRegistered => {},
        }
    }

    /// Removes the intents about session `p` from registered client `i`.
    pub fn drop_intents(&mut self, i: usize, p: usize)
        requires
            i < old(self).clients@.len(),
            is_registered(old(self).clients@[i as int]),
        ensures
            lists_changed(
                old(self).clients@,
                final(self).clients@,
                i as int,
                intents(old(self).clients@[i as int]).filter(not_with(p)),
                pool(old(self).clients@[i as int]),
            ),
            final(self).client_timeout == old(self).client_timeout,
    {
        match &mut self.clients[i].stage {
            ClientStage::Registered(r) => drop_peer(&mut r.to_connect, p),
            ClientStage::NotRegistered => {},
        }
    }

    /// Marks the intents of registered client `i` about session `p` as finishing.
    pub fn finish_intents(&mut self, i: usize, p: usize, off: u128)
        requires
            i < old(self).clients@.len(),
            is_registered(old(self).clients@[i as int]),
        ensures
            lists_changed(
                old(self).clients@,
                final(self).clients@,
                i as int,
                intents(old(self).clients@[i as int]).map(finisher(p, off)),
                pool(old(self).clients@[i as int]),
            ),
            final(self).client_timeout == old(self).client_timeout,
    {
        match &mut self.clients[i].stage {
            ClientStage::Registered(r) => finish_peer(&mut r.to_connect, p, off),
            ClientStage::NotRegistered => {},
        }
    }

    /// Takes the last spare port of registered client `i`, if any.
    pub fn pop_port(&mut self, i: usize) -> (r: Option<u16>)
        requires
            i < old(self).clients@.len(),
            is_registered(old(self).clients@[i as int]),
        ensures
            ({
                let p = pool(old(self).clients@[i as int]);
                &&& p.len() == 0 ==> r is None
                &&& p.len() > 0 ==> r == Some(p.last())
                &&& lists_changed(
                    old(self).clients@,
                    final(self).clients@,
                    i as int,
                    intents(old(self).clients@[i as int]),
                    if p.len() > 0 { p.drop_last() } else { p },
                )
            }),
            final(self).client_timeout == old(self).client_timeout,
    {
        match &mut self.clients[i].stage {
            ClientStage::Registered(r) => r.ports.pop(),
            ClientStage::NotRegistered => None,
        }
    }

    /// Gives a spare port to registered client `i`.
    pub fn push_port(&mut self, i: usize, port: u16)
        requires
            i < old(self).clients@.len(),
            is_registered(old(self).clients@[i as int]),
        ensures
            lists_changed(
                old(self).clients@,
                final(self).clients@,
                i as int,
                intents(old(self).clients@[i as int]),
                pool(old(self).clients@[i as int]).push(port),
            ),
            final(self).client_timeout == old(self).client_timeout,
    {
        match &mut self.clients[i].stage {
            ClientStage::Registered(r) => r.ports.push(port),
            ClientStage::NotRegistered => {},
        }
    }
}

} // verus!
