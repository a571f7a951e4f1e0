//! The matchmaking sweep: mutually finishing pairs with a spare port on each
//! side get one port each, a shared start time, and a ConnectOn message.
use vstd::multiset::Multiset;
use vstd::prelude::*;

use crate::packets::{ConnectOn, Packets};
use crate::registry::{
    adress_of, clients_wf, intents, is_registered, lemma_same_but_lists_wf, lemma_total_ports_at,
    lists_changed, not_with, pool, record, same_but_lists, same_but_lists_all, total_ports, Client, ClientStage, Connecting,
    Outgoing, RelayServer,
};
use crate::handshake::copy_adress;

verus! {

/// The character of a decimal digit.
pub open spec fn digit_char(d: nat) -> char {
    if d == 0 { '0' }
    else if d == 1 { '1' }
    else if d == 2 { '2' }
    else if d == 3 { '3' }
    else if d == 4 { '4' }
    else if d == 5 { '5' }
    else if d == 6 { '6' }
    else if d == 7 { '7' }
    else if d == 8 { '8' }
    else { '9' }
}

/// Decimal notation of a number, without leading zeros.
pub open spec fn decimal(n: nat) -> Seq<char>
    decreases n,
{
    if n < 10 {
        seq![digit_char(n)]
    } else {
        decimal(n / 10).push(digit_char(n % 10))
    }
}

/// `host:port`.
pub open spec fn host_port_text(host: Seq<char>, port: u16) -> Seq<char> {
    host + seq![':'] + decimal(port as nat)
}

/// Relies on std's `format!` with `Display` for `String` (the text itself)
/// and for `u16` (decimal, no leading zeros).
#[verifier::external_body]
fn host_port(host: &String, port: u16) -> (r: String)
    ensures
        r@ == host_port_text(host@, port),
{
    format!("{}:{}", host, port)
}

/// How `viewer` is to reach `peer`: both behind one public IP means the
/// peer's LAN address, else the peer's address as the relay sees it.
pub open spec fn host_seen(viewer: Client, peer: Client) -> Seq<char> {
    if viewer.from.ip@ == peer.from.ip@ {
        record(peer).private_adress@
    } else {
        peer.from.ip@
    }
}

/// The shared start time: `now + off`, or the largest time if that overflows.
pub open spec fn start_time(now: u128, off: u128) -> u128 {
    if now + off <= u128::MAX {
        (now + off) as u128
    } else {
        u128::MAX
    }
}

/// Both clients hold finishing intents about each other.
pub open spec fn mutual(a: Client, b: Client) -> bool {
    &&& exists|off: u128| intents(a).contains(Connecting::Finishing(b.session, off))
    &&& exists|off: u128| intents(b).contains(Connecting::Finishing(a.session, off))
}

/// `m` tells client `s[i]` to connect to client `s[j]`, as the sweep does it
/// from state `s` at time `now`.
pub open spec fn connect_on_between(s: Seq<Client>, i: int, j: int, m: Outgoing, now: u128) -> bool {
    &&& 0 <= i < s.len() && 0 <= j < s.len() && i != j
    &&& is_registered(s[i]) && is_registered(s[j])
    &&& mutual(s[i], s[j])
    &&& m.session == s[i].session
    &&& match m.packet {
        Packets::ConnectOn(c) => {
            &&& c.session == s[i].session
            &&& pool(s[i]).contains(c.port)
            &&& c.adress@ == adress_of(s[j])
            &&& exists|off: u128|
                #![trigger start_time(now, off)]
                (intents(s[i]).contains(Connecting::Finishing(s[j].session, off)) || intents(
                    s[j],
                ).contains(Connecting::Finishing(s[i].session, off))) && c.time == start_time(
                    now,
                    off,
                )
            &&& exists|p: u16|
                pool(s[j]).contains(p) && c.to@ == host_port_text(host_seen(s[i], s[j]), p)
        },
        _ => false,
    }
}

/// `o` tells client `s[me]` to connect to client `s[peer]`: from its own
/// port `my_port` to the peer's port `peer_port`, at time `time`.
pub open spec fn connect_on_msg(
    o: Outgoing,
    s: Seq<Client>,
    me: int,
    peer: int,
    my_port: u16,
    peer_port: u16,
    time: u128,
) -> bool {
    &&& o.session == s[me].session
    &&& match o.packet {
        Packets::ConnectOn(c) => {
            &&& c.session == s[me].session
            &&& c.to@ == host_port_text(host_seen(s[me], s[peer]), peer_port)
            &&& c.port == my_port
            &&& c.adress@ == adress_of(s[peer])
            &&& c.time == time
        },
        _ => false,
    }
}

/// One pairing of clients `i` and `j` from state `s` to `n`, with the
/// offset `off` that `i` holds for `j`: each gives its last spare port, both
/// drop their intents about each other, nothing else changes, and the two
/// ConnectOns (to `i`, then to `j`) are appended to the outbox.
pub open spec fn pairing_step(
    s: Seq<Client>,
    n: Seq<Client>,
    o0: Seq<Outgoing>,
    o1: Seq<Outgoing>,
    i: int,
    j: int,
    off: u128,
    now: u128,
) -> bool {
    &&& 0 <= i < s.len() && 0 <= j < s.len() && i != j
    &&& pairable(s[i], s[j])
    &&& intents(s[i]).contains(Connecting::Finishing(s[j].session, off))
    &&& same_but_lists_all(s, n)
    &&& pool(n[i]) == pool(s[i]).drop_last()
    &&& pool(n[j]) == pool(s[j]).drop_last()
    &&& intents(n[i]) == intents(s[i]).filter(not_with(s[j].session))
    &&& intents(n[j]) == intents(s[j]).filter(not_with(s[i].session))
    &&& forall|k: int|
        0 <= k < s.len() && k != i && k != j ==> pool(#[trigger] n[k]) == pool(s[k]) && intents(
            n[k],
        ) == intents(s[k])
    &&& o1.len() == o0.len() + 2
    &&& o1.subrange(0, o0.len() as int) == o0
    &&& connect_on_msg(o1[o0.len() as int], s, i, j, pool(s[i]).last(), pool(s[j]).last(), start_time(now, off))
    &&& connect_on_msg(o1[o0.len() + 1 as int], s, j, i, pool(s[j]).last(), pool(s[i]).last(), start_time(now, off))
}

/// The sessions that the pairing log `ps` paired client `k` with, in order.
/// An entry `(i, j, off)` of the log pairs clients `i` and `j` of `s`.
pub open spec fn partners(s: Seq<Client>, ps: Seq<(int, int, u128)>, k: int) -> Seq<usize>
    decreases ps.len(),
{
    if ps.len() == 0 {
        Seq::empty()
    } else {
        let r = partners(s, ps.drop_last(), k);
        if ps.last().0 == k {
            r.push(s[ps.last().1].session)
        } else if ps.last().1 == k {
            r.push(s[ps.last().0].session)
        } else {
            r
        }
    }
}

/// Intents with those about the given sessions removed.
pub open spec fn without_peers(l: Seq<Connecting>, peers: Seq<usize>) -> Seq<Connecting>
    decreases peers.len(),
{
    if peers.len() == 0 {
        l
    } else {
        without_peers(l, peers.drop_last()).filter(not_with(peers.last()))
    }
}

/// The port client `k` gives to the `m`-th pairing of the log: its pools are
/// used from the back.
pub open spec fn port_for(s: Seq<Client>, ps: Seq<(int, int, u128)>, m: int, k: int) -> u16 {
    pool(s[k])[pool(s[k]).len() - 1 - partners(s, ps.take(m), k).len()]
}

/// The `m`-th pairing of the log, made from state `s`: the two clients were
/// distinct, registered and mutually finishing, `i` held the offset `off`
/// for `j`, the two had not been paired before in the log and still had a
/// spare port each; the outbox got the ConnectOn to `i` and then the one to
/// `j`, each naming the port of the other, with one shared time.
pub open spec fn pairing_in_log(
    s: Seq<Client>,
    o0: Seq<Outgoing>,
    o1: Seq<Outgoing>,
    ps: Seq<(int, int, u128)>,
    m: int,
    now: u128,
) -> bool {
    let (i, j, off) = ps[m];
    &&& 0 <= i < s.len() && 0 <= j < s.len() && i != j
    &&& pairable(s[i], s[j])
    &&& intents(s[i]).contains(Connecting::Finishing(s[j].session, off))
    &&& !partners(s, ps.take(m), i).contains(s[j].session)
    &&& partners(s, ps.take(m), i).len() < pool(s[i]).len()
    &&& partners(s, ps.take(m), j).len() < pool(s[j]).len()
    &&& connect_on_msg(
        o1[o0.len() + 2 * m],
        s,
        i,
        j,
        port_for(s, ps, m, i),
        port_for(s, ps, m, j),
        start_time(now, off),
    )
    &&& connect_on_msg(
        o1[o0.len() + 2 * m + 1],
        s,
        j,
        i,
        port_for(s, ps, m, j),
        port_for(s, ps, m, i),
        start_time(now, off),
    )
}

/// A sweep from `s` to `n` that made the pairings of log `ps`: two
/// ConnectOns per pairing and no other message; each pool lost exactly the
/// ports its client was sent, from the back; each client's intents lost
/// exactly those about its partners; nothing else changed.
pub open spec fn sweep_effect(
    s: Seq<Client>,
    n: Seq<Client>,
    o0: Seq<Outgoing>,
    o1: Seq<Outgoing>,
    ps: Seq<(int, int, u128)>,
    now: u128,
) -> bool {
    &&& same_but_lists_all(s, n)
    &&& o1.len() == o0.len() + 2 * ps.len()
    &&& o1.subrange(0, o0.len() as int) == o0
    &&& forall|k: int|
        0 <= k < s.len() ==> partners(s, ps, k).len() <= pool(s[k]).len() && pool(#[trigger] n[k])
            == pool(s[k]).take(pool(s[k]).len() - partners(s, ps, k).len()) && intents(n[k])
            == without_peers(intents(s[k]), partners(s, ps, k))
    &&& forall|m: int| 0 <= m < ps.len() ==> #[trigger] pairing_in_log(s, o0, o1, ps, m, now)
}

/// The ports the log `ps` sent to client `k`, in order.
pub open spec fn sent_ports(s: Seq<Client>, ps: Seq<(int, int, u128)>, k: int) -> Seq<u16>
    decreases ps.len(),
{
    if ps.len() == 0 {
        Seq::empty()
    } else {
        let r = sent_ports(s, ps.drop_last(), k);
        if ps.last().0 == k || ps.last().1 == k {
            r.push(port_for(s, ps, ps.len() - 1, k))
        } else {
            r
        }
    }
}

proof fn lemma_sent_ports(s: Seq<Client>, ps: Seq<(int, int, u128)>, k: int)
    requires
        partners(s, ps, k).len() <= pool(s[k]).len(),
    ensures
        sent_ports(s, ps, k).len() == partners(s, ps, k).len(),
        forall|x: int|
            0 <= x < sent_ports(s, ps, k).len() ==> #[trigger] sent_ports(s, ps, k)[x] == pool(
                s[k],
            )[pool(s[k]).len() - 1 - x],
    decreases ps.len(),
{
    if ps.len() > 0 {
        let q = ps.drop_last();
        assert(partners(s, q, k).len() <= partners(s, ps, k).len());
        lemma_sent_ports(s, q, k);
        assert(ps.take(ps.len() - 1) =~= q);
    }
}

/// Ports are conserved by a sweep, client by client: the pool a client had
/// before is the pool it keeps followed by the ports it was sent, last sent
/// first; as multisets, the old pool is the kept pool plus the sent ports.
pub proof fn lemma_ports_conserved(
    s: Seq<Client>,
    n: Seq<Client>,
    o0: Seq<Outgoing>,
    o1: Seq<Outgoing>,
    ps: Seq<(int, int, u128)>,
    now: u128,
    k: int,
)
    requires
        sweep_effect(s, n, o0, o1, ps, now),
        0 <= k < s.len(),
    ensures
        pool(s[k]) == pool(n[k]) + sent_ports(s, ps, k).reverse(),
        pool(s[k]).to_multiset() == pool(n[k]).to_multiset().add(sent_ports(s, ps, k).to_multiset()),
{
    lemma_sent_ports(s, ps, k);
    let p = pool(s[k]);
    let c = partners(s, ps, k).len();
    let sent = sent_ports(s, ps, k);
    assert(pool(n[k]) == p.take(p.len() - c));
    assert forall|y: int| 0 <= y < c implies #[trigger] sent.reverse()[y] == p[p.len() - c + y] by {
        assert(sent.reverse()[y] == sent[c - 1 - y]);
    }
    assert(p =~= pool(n[k]) + sent.reverse());
    vstd::seq_lib::lemma_multiset_commutative(pool(n[k]), sent.reverse());
    sent.lemma_reverse_to_multiset();
}

/// The spare ports of the first `c` clients, as a multiset.
pub open spec fn pools_upto(s: Seq<Client>, c: int) -> Multiset<u16>
    decreases c,
{
    if c <= 0 {
        Multiset::empty()
    } else {
        pools_upto(s, c - 1).add(pool(s[c - 1]).to_multiset())
    }
}

/// The ports the log sent to the first `c` clients, as a multiset.
pub open spec fn sent_upto(s: Seq<Client>, ps: Seq<(int, int, u128)>, c: int) -> Multiset<u16>
    decreases c,
{
    if c <= 0 {
        Multiset::empty()
    } else {
        sent_upto(s, ps, c - 1).add(sent_ports(s, ps, c - 1).to_multiset())
    }
}

/// The ports named as the receiver's own in the ConnectOns of `o`.
pub open spec fn message_ports(o: Seq<Outgoing>) -> Multiset<u16>
    decreases o.len(),
{
    if o.len() == 0 {
        Multiset::empty()
    } else {
        message_ports(o.drop_last()).add(
            match o.last().packet {
                Packets::ConnectOn(c) => Multiset::singleton(c.port),
                _ => Multiset::empty(),
            },
        )
    }
}

proof fn lemma_pools_upto(
    s: Seq<Client>,
    n: Seq<Client>,
    o0: Seq<Outgoing>,
    o1: Seq<Outgoing>,
    ps: Seq<(int, int, u128)>,
    now: u128,
    c: int,
)
    requires
        sweep_effect(s, n, o0, o1, ps, now),
        0 <= c <= s.len(),
    ensures
        pools_upto(s, c) == pools_upto(n, c).add(sent_upto(s, ps, c)),
    decreases c,
{
    if c > 0 {
        lemma_pools_upto(s, n, o0, o1, ps, now, c - 1);
        lemma_ports_conserved(s, n, o0, o1, ps, now, c - 1);
        assert(pools_upto(s, c) =~= pools_upto(n, c).add(sent_upto(s, ps, c)));
    }
}

/// Adding one pairing to a log adds its two ports to what was sent.
proof fn lemma_sent_upto_step(s: Seq<Client>, q: Seq<(int, int, u128)>, e: (int, int, u128), c: int)
    requires
        e.0 != e.1,
        0 <= e.0,
        0 <= e.1,
        0 <= c,
    ensures
        sent_upto(s, q.push(e), c) == sent_upto(s, q, c).add(
            if e.0 < c { Multiset::singleton(port_for(s, q.push(e), q.len() as int, e.0)) } else { Multiset::empty() },
        ).add(
            if e.1 < c { Multiset::singleton(port_for(s, q.push(e), q.len() as int, e.1)) } else { Multiset::empty() },
        ),
    decreases c,
{
    let qe = q.push(e);
    assert(qe.drop_last() =~= q);
    if c > 0 {
        lemma_sent_upto_step(s, q, e, c - 1);
        let k = c - 1;
        let p0 = port_for(s, qe, q.len() as int, e.0);
        let p1 = port_for(s, qe, q.len() as int, e.1);
        sent_ports(s, q, k).to_multiset_ensures();
        if k == e.0 {
            assert(sent_ports(s, qe, k) == sent_ports(s, q, k).push(p0));
            assert(sent_ports(s, qe, k).to_multiset() =~= sent_ports(s, q, k).to_multiset().add(Multiset::singleton(p0)));
        } else if k == e.1 {
            assert(sent_ports(s, qe, k) == sent_ports(s, q, k).push(p1));
            assert(sent_ports(s, qe, k).to_multiset() =~= sent_ports(s, q, k).to_multiset().add(Multiset::singleton(p1)));
        } else {
            assert(sent_ports(s, qe, k) == sent_ports(s, q, k));
        }
        assert(sent_upto(s, qe, c) =~= sent_upto(s, q, c).add(
            if e.0 < c { Multiset::singleton(port_for(s, qe, q.len() as int, e.0)) } else { Multiset::empty() },
        ).add(
            if e.1 < c { Multiset::singleton(port_for(s, qe, q.len() as int, e.1)) } else { Multiset::empty() },
        ));
    } else {
        assert(sent_upto(s, qe, c) =~= sent_upto(s, q, c).add(Multiset::empty()).add(Multiset::empty()));
    }
}

proof fn lemma_sent_messages(
    s: Seq<Client>,
    n: Seq<Client>,
    o0: Seq<Outgoing>,
    o1: Seq<Outgoing>,
    ps: Seq<(int, int, u128)>,
    now: u128,
    t: int,
)
    requires
        sweep_effect(s, n, o0, o1, ps, now),
        0 <= t <= ps.len(),
    ensures
        sent_upto(s, ps.take(t), s.len() as int) == message_ports(
            o1.subrange(o0.len() as int, o0.len() + 2 * t),
        ),
    decreases t,
{
    if t == 0 {
        lemma_empty_log(s, ps.take(0), s.len() as int);
        assert(o1.subrange(o0.len() as int, o0.len() as int) =~= Seq::<Outgoing>::empty());
    } else {
        lemma_sent_messages(s, n, o0, o1, ps, now, t - 1);
        let q = ps.take(t - 1);
        let e = ps[t - 1];
        assert(ps.take(t) =~= q.push(e));
        assert(pairing_in_log(s, o0, o1, ps, t - 1, now));
        lemma_sent_upto_step(s, q, e, s.len() as int);
        assert(q.push(e).take(t - 1) =~= ps.take(t - 1));
        let w = o1.subrange(o0.len() as int, o0.len() + 2 * t);
        assert(w.drop_last().drop_last() =~= o1.subrange(o0.len() as int, o0.len() + 2 * (t - 1)));
        assert(w.last() == o1[o0.len() + 2 * (t - 1) + 1]);
        assert(w.drop_last().last() == o1[o0.len() + 2 * (t - 1)]);
        let (i, j, off) = e;
        let pi = port_for(s, ps, t - 1, i);
        let pj = port_for(s, ps, t - 1, j);
        assert(port_for(s, q.push(e), q.len() as int, i) == pi);
        assert(port_for(s, q.push(e), q.len() as int, j) == pj);
        assert(w.drop_last().last().packet matches Packets::ConnectOn(c) && c.port == pi);
        assert(w.last().packet matches Packets::ConnectOn(c) && c.port == pj);
        assert(w.len() == 2 * t);
        assert(message_ports(w) == message_ports(w.drop_last()).add(Multiset::singleton(pj)));
        assert(message_ports(w.drop_last()) == message_ports(w.drop_last().drop_last()).add(
            Multiset::singleton(pi),
        ));
        assert(message_ports(w) =~= message_ports(w.drop_last().drop_last()).add(Multiset::singleton(pi)).add(
            Multiset::singleton(pj),
        ));
        assert(sent_upto(s, ps.take(t), s.len() as int) =~= message_ports(w));
    }
}

proof fn lemma_empty_log(s: Seq<Client>, q: Seq<(int, int, u128)>, c: int)
    requires
        q.len() == 0,
        0 <= c,
    ensures
        sent_upto(s, q, c) == Multiset::<u16>::empty(),
    decreases c,
{
    if c > 0 {
        lemma_empty_log(s, q, c - 1);
        let e = sent_ports(s, q, c - 1);
        assert(e =~= Seq::<u16>::empty());
        e.to_multiset_ensures();
        assert(e.to_multiset() =~= Multiset::<u16>::empty());
        assert(sent_upto(s, q, c) =~= Multiset::<u16>::empty());
    }
}

/// Ports are conserved by a sweep over all clients together: the spare
/// ports before are the spare ports after plus the ports handed out in the
/// ConnectOns the sweep sent, as multisets.
pub proof fn lemma_sweep_conserves_ports(
    s: Seq<Client>,
    n: Seq<Client>,
    o0: Seq<Outgoing>,
    o1: Seq<Outgoing>,
    ps: Seq<(int, int, u128)>,
    now: u128,
)
    requires
        sweep_effect(s, n, o0, o1, ps, now),
    ensures
        pools_upto(s, s.len() as int) == pools_upto(n, n.len() as int).add(
            message_ports(o1.subrange(o0.len() as int, o1.len() as int)),
        ),
{
    lemma_pools_upto(s, n, o0, o1, ps, now, s.len() as int);
    lemma_sent_messages(s, n, o0, o1, ps, now, ps.len() as int);
    assert(ps.take(ps.len() as int) =~= ps);
}

pub proof fn lemma_without_peers(l: Seq<Connecting>, peers: Seq<usize>, c: Connecting)
    requires
        without_peers(l, peers).contains(c),
    ensures
        l.contains(c),
        !peers.contains(c.peer()),
    decreases peers.len(),
{
    if peers.len() > 0 {
        let inner = without_peers(l, peers.drop_last());
        inner.lemma_filter_contains_rev(not_with(peers.last()), c);
        let k = choose|k: int| 0 <= k < inner.filter(not_with(peers.last())).len() && inner.filter(
            not_with(peers.last()),
        )[k] == c;
        inner.lemma_filter_pred(not_with(peers.last()), k);
        lemma_without_peers(l, peers.drop_last(), c);
        if peers.contains(c.peer()) {
            let x = choose|x: int| 0 <= x < peers.len() && peers[x] == c.peer();
            if x < peers.len() - 1 {
                assert(peers.drop_last()[x] == c.peer());
            }
        }
    }
}

/// A ConnectOn against a later state of the sweep reads the same against an
/// earlier one.
pub proof fn lemma_msg_back(
    s0: Seq<Client>,
    s1: Seq<Client>,
    o: Outgoing,
    me: int,
    peer: int,
    my_port: u16,
    peer_port: u16,
    time: u128,
)
    requires
        same_but_lists_all(s0, s1),
        0 <= me < s0.len(),
        0 <= peer < s0.len(),
        connect_on_msg(o, s1, me, peer, my_port, peer_port, time),
    ensures
        connect_on_msg(o, s0, me, peer, my_port, peer_port, time),
{
    assert(same_but_lists(s0[me], s1[me]));
    assert(same_but_lists(s0[peer], s1[peer]));
    assert(host_seen(s0[me], s0[peer]) == host_seen(s1[me], s1[peer]));
}

/// `m` is a ConnectOn for some mutually finishing pair of `s`.
pub open spec fn valid_connect_on(s: Seq<Client>, m: Outgoing, now: u128) -> bool {
    exists|i: int, j: int| connect_on_between(s, i, j, m, now)
}

/// The clients of sessions `sa` and `sb` could be paired now: distinct,
/// registered, mutually finishing, each with a spare port.
pub open spec fn ready(s: Seq<Client>, sa: usize, sb: usize) -> bool {
    exists|i: int, j: int|
        0 <= i < s.len() && 0 <= j < s.len() && #[trigger] s[i].session == sa
            && #[trigger] s[j].session == sb && pairable(s[i], s[j])
}

pub open spec fn pairable(a: Client, b: Client) -> bool {
    &&& a.session != b.session
    &&& is_registered(a)
    &&& is_registered(b)
    &&& mutual(a, b)
    &&& pool(a).len() > 0
    &&& pool(b).len() > 0
}

/// Each client's lists only lost entries from `a` to `b`.
pub open spec fn lists_shrunk(a: Seq<Client>, b: Seq<Client>) -> bool {
    &&& a.len() == b.len()
    &&& forall|k: int, x: Connecting|
        0 <= k < a.len() && #[trigger] intents(b[k]).contains(x) ==> intents(a[k]).contains(x)
    &&& forall|k: int, p: u16|
        0 <= k < a.len() && #[trigger] pool(b[k]).contains(p) ==> pool(a[k]).contains(p)
}

/// A pairing candidate of client `me`: it holds `Finishing(t.1, t.2)`.
pub open spec fn candidate_of(list: Seq<Connecting>, me: usize, t: (usize, usize, u128)) -> bool {
    t.0 == me && list.contains(Connecting::Finishing(t.1, t.2))
}

/// A finishing intent of client `me` has its candidate in `acc`.
pub open spec fn covered(acc: Seq<(usize, usize, u128)>, me: usize, c: Connecting) -> bool {
    match c {
        Connecting::Finishing(p, off) => acc.contains((me, p, off)),
        Connecting::Start(_) => true,
    }
}

/// Appends the pairing candidates of client `me` to `acc`.
pub fn finishing_intents(list: &Vec<Connecting>, me: usize, acc: &mut Vec<(usize, usize, u128)>)
    ensures
        final(acc)@.len() >= old(acc)@.len(),
        forall|k: int| 0 <= k < old(acc)@.len() ==> final(acc)@[k] == old(acc)@[k],
        forall|k: int|
            old(acc)@.len() <= k < final(acc)@.len() ==> candidate_of(
                list@,
                me,
                #[trigger] final(acc)@[k],
            ),
        forall|p: usize, off: u128|
            #[trigger] list@.contains(Connecting::Finishing(p, off)) ==> final(acc)@.contains(
                (me, p, off),
            ),
{
    let mut i: usize = 0;
    let ghost n0 = acc@.len();
    while i < list.len()
        invariant
            i <= list@.len(),
            acc@.len() >= n0,
            forall|k: int| 0 <= k < n0 ==> acc@[k] == old(acc)@[k],
            forall|k: int| n0 <= k < acc@.len() ==> candidate_of(list@, me, #[trigger] acc@[k]),
            forall|k: int| 0 <= k < i ==> covered(acc@, me, #[trigger] list@[k]),
        decreases list@.len() - i,
    {
        match list[i] {
            Connecting::Finishing(p, off) => {
                assert(list@[i as int] == Connecting::Finishing(p, off));
                assert(list@.contains(Connecting::Finishing(p, off)));
                let ghost before = acc@;
                acc.push((me, p, off));
                assert(forall|k: int| 0 <= k < before.len() ==> acc@[k] == before[k]);
                assert(candidate_of(list@, me, acc@[acc@.len() - 1]));
                assert(acc@[acc@.len() - 1] == (me, p, off));
                assert forall|x: (usize, usize, u128)| before.contains(x) implies acc@.contains(x) by {
                    let k = choose|k: int| 0 <= k < before.len() && before[k] == x;
                    assert(acc@[k] == x);
                }
                assert forall|k: int| 0 <= k < i + 1 implies covered(acc@, me, #[trigger] list@[k]) by {
                    if k < i {
                        assert(covered(before, me, list@[k]));
                    }
                }
            },
            Connecting::Start(_) => {},
        }
        i += 1;
    }
    assert forall|p: usize, off: u128|
        #[trigger] list@.contains(Connecting::Finishing(p, off)) implies acc@.contains((me, p, off)) by {
        let k = choose|k: int| 0 <= k < list@.len() && list@[k] == Connecting::Finishing(p, off);
        assert(covered(acc@, me, list@[k]));
    }
}

/// Whether the list holds `Finishing(p, off)` for some offset.
pub fn holds_finishing(list: &Vec<Connecting>, p: usize) -> (r: Option<u128>)
    ensures
        r is None ==> forall|off: u128| !list@.contains(Connecting::Finishing(p, off)),
        r matches Some(off) ==> list@.contains(Connecting::Finishing(p, off)),
{
    let mut i: usize = 0;
    while i < list.len()
        invariant
            i <= list@.len(),
            forall|k: int, off: u128| 0 <= k < i ==> list@[k] != Connecting::Finishing(p, off),
        decreases list@.len() - i,
    {
        match list[i] {
            Connecting::Finishing(q, off) => {
                if q == p {
                    assert(list@[i as int] == Connecting::Finishing(p, off));
                    return Some(off);
                }
            },
            Connecting::Start(_) => {},
        }
        i += 1;
    }
    None
}

/// A message valid against a later state is valid against an earlier one
/// whose lists it only shrank.
pub proof fn lemma_connect_on_back(s0: Seq<Client>, s1: Seq<Client>, m: Outgoing, now: u128)
    requires
        same_but_lists_all(s0, s1),
        lists_shrunk(s0, s1),
        valid_connect_on(s1, m, now),
    ensures
        valid_connect_on(s0, m, now),
{
    let (i, j) = choose|i: int, j: int| connect_on_between(s1, i, j, m, now);
    assert(same_but_lists(s0[i], s1[i]));
    assert(same_but_lists(s0[j], s1[j]));
    let c = m.packet->ConnectOn_0;
    let off1 = choose|off: u128| intents(s1[i]).contains(Connecting::Finishing(s1[j].session, off));
    assert(intents(s0[i]).contains(Connecting::Finishing(s0[j].session, off1)));
    let off2 = choose|off: u128| intents(s1[j]).contains(Connecting::Finishing(s1[i].session, off));
    assert(intents(s0[j]).contains(Connecting::Finishing(s0[i].session, off2)));
    let off = choose|off: u128|
        #![trigger start_time(now, off)]
        (intents(s1[i]).contains(Connecting::Finishing(s1[j].session, off)) || intents(
            s1[j],
        ).contains(Connecting::Finishing(s1[i].session, off))) && c.time == start_time(now, off);
    if intents(s1[i]).contains(Connecting::Finishing(s1[j].session, off)) {
        assert(intents(s0[i]).contains(Connecting::Finishing(s0[j].session, off)));
    } else {
        assert(intents(s0[j]).contains(Connecting::Finishing(s0[i].session, off)));
    }
    let p = choose|p: u16| pool(s1[j]).contains(p) && c.to@ == host_port_text(host_seen(s1[i], s1[j]), p);
    assert(pool(s0[j]).contains(p));
    assert(pool(s0[i]).contains(c.port));
    assert(host_seen(s0[i], s0[j]) == host_seen(s1[i], s1[j]));
    assert(connect_on_between(s0, i, j, m, now));
}

/// With distinct handles, readiness is about the clients at `ia` and `ib`.
pub proof fn lemma_ready_at(s: Seq<Client>, sa: usize, sb: usize, ia: int, ib: int)
    requires
        clients_wf(s),
        0 <= ia < s.len(),
        0 <= ib < s.len(),
        s[ia].session == sa,
        s[ib].session == sb,
    ensures
        ready(s, sa, sb) <==> pairable(s[ia], s[ib]),
{
    if ready(s, sa, sb) {
        let (i, j) = choose|i: int, j: int|
            0 <= i < s.len() && 0 <= j < s.len() && #[trigger] s[i].session == sa
                && #[trigger] s[j].session == sb && pairable(s[i], s[j]);
        if i != ia {
            assert(s[i].session != s[ia].session);
        }
        if j != ib {
            assert(s[j].session != s[ib].session);
        }
    }
    if pairable(s[ia], s[ib]) {
        assert(s[ia].session == sa && s[ib].session == sb);
    }
}

/// A pair ready in a later state of the sweep was ready before.
pub proof fn lemma_ready_back(s0: Seq<Client>, s1: Seq<Client>, sa: usize, sb: usize)
    requires
        same_but_lists_all(s0, s1),
        lists_shrunk(s0, s1),
        ready(s1, sa, sb),
    ensures
        ready(s0, sa, sb),
{
    let (i, j) = choose|i: int, j: int|
        0 <= i < s1.len() && 0 <= j < s1.len() && #[trigger] s1[i].session == sa
            && #[trigger] s1[j].session == sb && pairable(s1[i], s1[j]);
    assert(same_but_lists(s0[i], s1[i]));
    assert(same_but_lists(s0[j], s1[j]));
    let off1 = choose|off: u128| intents(s1[i]).contains(Connecting::Finishing(s1[j].session, off));
    assert(intents(s0[i]).contains(Connecting::Finishing(s0[j].session, off1)));
    let off2 = choose|off: u128| intents(s1[j]).contains(Connecting::Finishing(s1[i].session, off));
    assert(intents(s0[j]).contains(Connecting::Finishing(s0[i].session, off2)));
    assert(pool(s1[i]).contains(pool(s1[i])[0]));
    assert(pool(s0[i]).contains(pool(s1[i])[0]));
    assert(pool(s1[j]).contains(pool(s1[j])[0]));
    assert(pool(s0[j]).contains(pool(s1[j])[0]));
    assert(s0[i].session == sa && s0[j].session == sb);
    assert(pairable(s0[i], s0[j]));
}

/// What one client's address and LAN address look like to the sweep.
fn host_for(viewer: &Client, peer: &Client) -> (r: String)
    requires
        is_registered(*peer),
    ensures
        r@ == host_seen(*viewer, *peer),
{
    if viewer.from.ip == peer.from.ip {
        match &peer.stage {
            ClientStage::Registered(r) => r.private_adress.clone(),
            ClientStage::NotRegistered => String::new(),
        }
    } else {
        peer.from.ip.clone()
    }
}

impl RelayServer {
    /// Every (holder, peer) of a finishing intent, in registry order.
    fn pairing_candidates(&self) -> (r: Vec<(usize, usize, u128)>)
        ensures
            forall|i: int, p: usize, off: u128|
                0 <= i < self.clients@.len() && #[trigger] intents(self.clients@[i]).contains(
                    Connecting::Finishing(p, off),
                ) ==> r@.contains((self.clients@[i].session, p, off)),
    {
        let mut acc: Vec<(usize, usize, u128)> = Vec::new();
        let mut i: usize = 0;
        while i < self.clients.len()
            invariant
                i <= self.clients@.len(),
                forall|k: int, p: usize, off: u128|
                    0 <= k < i && #[trigger] intents(self.clients@[k]).contains(
                        Connecting::Finishing(p, off),
                    ) ==> acc@.contains((self.clients@[k].session, p, off)),
            decreases self.clients@.len() - i,
        {
            let ghost before = acc@;
            match &self.clients[i].stage {
                ClientStage::Registered(r) => {
                    finishing_intents(&r.to_connect, self.clients[i].session, &mut acc);
                },
                ClientStage::NotRegistered => {},
            }
            proof {
                assert forall|x: (usize, usize, u128)| before.contains(x) implies acc@.contains(x) by {
                    let k = choose|k: int| 0 <= k < before.len() && before[k] == x;
                    assert(acc@[k] == x);
                }
            }
            i += 1;
        }
        acc
    }

    /// Pairs the clients of sessions `sa` and `sb` if they are distinct,
    /// registered, mutually finishing and each has a spare port; otherwise
    /// leaves every pool and intent as it was.
    fn pair_one(&mut self, sa: usize, sb: usize, now: u128, out: &mut Vec<Outgoing>) -> (r: Option<(usize, usize, u128)>)
        requires
            old(self).wf(),
        ensures
            final(self).wf(),
            final(self).client_timeout == old(self).client_timeout,
            same_but_lists_all(old(self).clients@, final(self).clients@),
            lists_shrunk(old(self).clients@, final(self).clients@),
            final(out)@.len() == old(out)@.len() + if r is Some { 2int } else { 0 },
            final(out)@.subrange(0, old(out)@.len() as int) == old(out)@,
            total_ports(final(self).clients@) + (final(out)@.len() - old(out)@.len())
                == total_ports(old(self).clients@),
            forall|k: int|
                old(out)@.len() <= k < final(out)@.len() ==> valid_connect_on(
                    old(self).clients@,
                    #[trigger] final(out)@[k],
                    now,
                ),
            !ready(final(self).clients@, sa, sb),
            (r is Some) == ready(old(self).clients@, sa, sb),
            r is None ==> final(self).clients@ == old(self).clients@ && final(out)@ == old(out)@,
            r matches Some((i, j, off)) ==> pairing_step(
                old(self).clients@,
                final(self).clients@,
                old(out)@,
                final(out)@,
                i as int,
                j as int,
                off,
                now,
            ),
    {
        let ghost s = self.clients@;
        let ghost o = out@;
        proof {
            assert(o.subrange(0, o.len() as int) =~= o);
        }
        let ia = match self.index_of(sa) {
            Some(i) => i,
            None => return None,
        };
        let ib = match self.index_of(sb) {
            Some(i) => i,
            None => return None,
        };
        proof {
            lemma_ready_at(s, sa, sb, ia as int, ib as int);
        }
        if ia == ib {
            return None;
        }
        let off = match &self.clients[ia].stage {
            ClientStage::Registered(r) => match holds_finishing(&r.to_connect, sb) {
                Some(off) => off,
                None => return None,
            },
            ClientStage::NotRegistered => return None,
        };
        let off_b = match &self.clients[ib].stage {
            ClientStage::Registered(r) => match holds_finishing(&r.to_connect, sa) {
                Some(off) => off,
                None => return None,
            },
            ClientStage::NotRegistered => return None,
        };
        assert(intents(s[ia as int]).contains(Connecting::Finishing(s[ib as int].session, off)));
        assert(intents(s[ib as int]).contains(Connecting::Finishing(s[ia as int].session, off_b)));
        assert(mutual(s[ia as int], s[ib as int]));
        let host_a = host_for(&self.clients[ib], &self.clients[ia]);
        let host_b = host_for(&self.clients[ia], &self.clients[ib]);
        let addr_a = match &self.clients[ia].stage {
            ClientStage::Registered(r) => copy_adress(&r.adress),
            ClientStage::NotRegistered => Vec::new(),
        };
        let addr_b = match &self.clients[ib].stage {
            ClientStage::Registered(r) => copy_adress(&r.adress),
            ClientStage::NotRegistered => Vec::new(),
        };
        if !(self.has_port(ia) && self.has_port(ib)) {
            return None;
        }
        let port_a = match self.pop_port(ia) {
            Some(p) => p,
            None => return None,
        };
        let ghost s1 = self.clients@;
        proof {
            lemma_total_ports_at(s, s1, ia as int);
            lemma_drop_last_within(pool(s[ia as int]));
            lemma_changed_shrinks(s, s, s1, ia as int, intents(s[ia as int]), pool(s[ia as int]).drop_last());
        }
        let port_b = match self.pop_port(ib) {
            Some(p) => p,
            None => return None,
        };
        let ghost s2 = self.clients@;
        proof {
            lemma_total_ports_at(s1, s2, ib as int);
            lemma_drop_last_within(pool(s[ib as int]));
            lemma_changed_shrinks(s, s1, s2, ib as int, intents(s[ib as int]), pool(s[ib as int]).drop_last());
        }
        self.drop_intents(ia, sb);
        let ghost s3 = self.clients@;
        proof {
            lemma_total_ports_at(s2, s3, ia as int);
            lemma_filter_within(intents(s[ia as int]), not_with(sb));
            lemma_changed_shrinks(s, s2, s3, ia as int, intents(s[ia as int]).filter(not_with(sb)), pool(s2[ia as int]));
        }
        self.drop_intents(ib, sa);
        proof {
            lemma_total_ports_at(s3, self.clients@, ib as int);
            lemma_filter_within(intents(s[ib as int]), not_with(sa));
            lemma_changed_shrinks(s, s3, self.clients@, ib as int, intents(s[ib as int]).filter(not_with(sa)), pool(s3[ib as int]));
            lemma_same_but_lists_wf(s, self.clients@);
            let n = self.clients@;
            assert(same_but_lists(s[ia as int], n[ia as int]));
            assert(same_but_lists(s[ib as int], n[ib as int]));
            lemma_ready_at(n, sa, sb, ia as int, ib as int);
            assert forall|off: u128| !intents(n[ia as int]).contains(Connecting::Finishing(sb, off)) by {
                if intents(n[ia as int]).contains(Connecting::Finishing(sb, off)) {
                    assert(intents(s3[ia as int]) == intents(s[ia as int]).filter(not_with(sb)));
                    assert(intents(n[ia as int]) == intents(s3[ia as int]));
                    intents(s[ia as int]).lemma_filter_pred(not_with(sb), 0);
                    let k = choose|k: int| 0 <= k < intents(n[ia as int]).len() && intents(n[ia as int])[k] == Connecting::Finishing(sb, off);
                    intents(s[ia as int]).lemma_filter_pred(not_with(sb), k);
                }
            }
        }
        let time = now.saturating_add(off);
        let to_b = host_port(&host_b, port_b);
        let to_a = host_port(&host_a, port_a);
        let m1 = Outgoing {
            session: sa,
            packet: Packets::ConnectOn(ConnectOn { session: sa, to: to_b, port: port_a, adress: addr_b, time }),
        };
        let m2 = Outgoing {
            session: sb,
            packet: Packets::ConnectOn(ConnectOn { session: sb, to: to_a, port: port_b, adress: addr_a, time }),
        };
        proof {
            let (i, j) = (ia as int, ib as int);
            assert(pool(s[i]).contains(port_a)) by {
                assert(pool(s[i])[pool(s[i]).len() - 1] == port_a);
            }
            assert(pool(s[j]).contains(port_b)) by {
                assert(pool(s[j])[pool(s[j]).len() - 1] == port_b);
            }
            assert(intents(s[i]).contains(Connecting::Finishing(s[j].session, off)));
            assert(time == start_time(now, off));
            assert(connect_on_between(s, i, j, m1, now));
            assert(connect_on_between(s, j, i, m2, now));
        }
        out.push(m1);
        out.push(m2);
        proof {
            assert(out@.subrange(0, o.len() as int) =~= o);
            assert(out@[o.len() as int] == m1);
            assert(out@[o.len() + 1 as int] == m2);
            let n = self.clients@;
            assert(pool(n[ia as int]) == pool(s[ia as int]).drop_last());
            assert(pool(n[ib as int]) == pool(s[ib as int]).drop_last());
            assert(intents(n[ia as int]) == intents(s[ia as int]).filter(not_with(sb)));
            assert(intents(n[ib as int]) == intents(s[ib as int]).filter(not_with(sa)));
            assert(connect_on_msg(m1, s, ia as int, ib as int, port_a, port_b, time));
            assert(connect_on_msg(m2, s, ib as int, ia as int, port_b, port_a, time));
        }
        Some((ia, ib, off))
    }

    /// The sweep: each finishing intent, in registry order, is tried as a
    /// pairing (see `pair_one`). Ports are conserved: every port that leaves
    /// a pool leaves in exactly one ConnectOn, to its owner. Every ConnectOn
    /// names a pair that was mutually finishing before the sweep. After the
    /// sweep no two mutually finishing clients both have a spare port.
    pub fn connect(&mut self, now: u128, out: &mut Vec<Outgoing>)
        requires
            old(self).wf(),
        ensures
            final(self).wf(),
            final(self).client_timeout == old(self).client_timeout,
            same_but_lists_all(old(self).clients@, final(self).clients@),
            lists_shrunk(old(self).clients@, final(self).clients@),
            final(out)@.len() >= old(out)@.len(),
            final(out)@.subrange(0, old(out)@.len() as int) == old(out)@,
            total_ports(final(self).clients@) + (final(out)@.len() - old(out)@.len())
                == total_ports(old(self).clients@),
            forall|k: int|
                old(out)@.len() <= k < final(out)@.len() ==> valid_connect_on(
                    old(self).clients@,
                    #[trigger] final(out)@[k],
                    now,
                ),
            forall|i: int, j: int|
                0 <= i < final(self).clients@.len() && 0 <= j < final(self).clients@.len() && i != j
                    ==> !pairable(#[trigger] final(self).clients@[i], #[trigger] final(self).clients@[j]),
            exists|ps: Seq<(int, int, u128)>|
                sweep_effect(old(self).clients@, final(self).clients@, old(out)@, final(out)@, ps, now),
    {
        let ghost s0 = self.clients@;
        let ghost mut ps: Seq<(int, int, u128)> = Seq::empty();
        let ghost o0 = out@;
        let cands = self.pairing_candidates();
        let mut k: usize = 0;
        proof {
            assert(o0.subrange(0, o0.len() as int) =~= o0);
            lemma_shrunk_refl(s0);
            assert forall|k: int| 0 <= k < s0.len() implies pool(#[trigger] s0[k]) == pool(s0[k]).take(
                pool(s0[k]).len() - partners(s0, ps, k).len(),
            ) && intents(s0[k]) == without_peers(intents(s0[k]), partners(s0, ps, k)) by {
                assert(pool(s0[k]).take(pool(s0[k]).len() as int) =~= pool(s0[k]));
            }
        }
        while k < cands.len()
            invariant
                self.wf(),
                self.client_timeout == old(self).client_timeout,
                s0 == old(self).clients@,
                o0 == old(out)@,
                same_but_lists_all(s0, self.clients@),
                lists_shrunk(s0, self.clients@),
                out@.len() >= o0.len(),
                out@.subrange(0, o0.len() as int) == o0,
                total_ports(self.clients@) + (out@.len() - o0.len()) == total_ports(s0),
                forall|m: int|
                    o0.len() <= m < out@.len() ==> valid_connect_on(s0, #[trigger] out@[m], now),
                forall|m: int|
                    0 <= m < k ==> !ready(self.clients@, (#[trigger] cands@[m]).0, cands@[m].1),
                forall|i: int, p: usize, off: u128|
                    0 <= i < s0.len() && #[trigger] intents(s0[i]).contains(
                        Connecting::Finishing(p, off),
                    ) ==> cands@.contains((s0[i].session, p, off)),
                sweep_effect(s0, self.clients@, o0, out@, ps, now),
            decreases cands@.len() - k,
        {
            let (sa, sb, _) = cands[k];
            let ghost cur = self.clients@;
            let ghost before = out@;
            let made = self.pair_one(sa, sb, now, out);
            proof {
                match made {
                    Some((i, j, off)) => {
                        lemma_log_step(s0, cur, self.clients@, o0, before, out@, ps, i as int, j as int, off, now);
                        ps = ps.push((i as int, j as int, off));
                    },
                    None => {},
                }
                assert forall|m: int| o0.len() <= m < out@.len() implies valid_connect_on(
                    s0,
                    #[trigger] out@[m],
                    now,
                ) by {
                    if m < before.len() {
                        assert(out@[m] == out@.subrange(0, before.len() as int)[m]);
                    } else {
                        lemma_connect_on_back(s0, cur, out@[m], now);
                    }
                }
                assert(out@.subrange(0, o0.len() as int) =~= before.subrange(0, o0.len() as int)) by {
                    assert forall|m: int| 0 <= m < o0.len() implies out@[m] == before[m] by {
                        assert(out@.subrange(0, before.len() as int)[m] == before[m]);
                    }
                }
                lemma_shrunk_trans(s0, cur, self.clients@);
                assert forall|m: int| 0 <= m < k + 1 implies !ready(
                    self.clients@,
                    (#[trigger] cands@[m]).0,
                    cands@[m].1,
                ) by {
                    if m < k && ready(self.clients@, cands@[m].0, cands@[m].1) {
                        lemma_ready_back(cur, self.clients@, cands@[m].0, cands@[m].1);
                    }
                }
            }
            k += 1;
        }
        proof {
            let n = self.clients@;
            assert forall|i: int, j: int|
                0 <= i < n.len() && 0 <= j < n.len() && i != j implies !pairable(
                #[trigger] n[i],
                #[trigger] n[j],
            ) by {
                if pairable(n[i], n[j]) {
                    let off = choose|off: u128| intents(n[i]).contains(Connecting::Finishing(n[j].session, off));
                    assert(intents(s0[i]).contains(Connecting::Finishing(n[j].session, off)));
                    assert(same_but_lists(s0[i], n[i]));
                    assert(cands@.contains((n[i].session, n[j].session, off)));
                    let m = choose|m: int| 0 <= m < cands@.len() && cands@[m] == (n[i].session, n[j].session, off);
                    assert(!ready(n, cands@[m].0, cands@[m].1));
                    assert(n[i].session == cands@[m].0 && n[j].session == cands@[m].1);
                }
            }
        }
    }

    /// Whether registered client `i` has a spare port.
    fn has_port(&self, i: usize) -> (r: bool)
        requires
            i < self.clients@.len(),
        ensures
            r == (pool(self.clients@[i as int]).len() > 0),
    {
        match &self.clients[i].stage {
            ClientStage::Registered(r) => r.ports.len() > 0,
            ClientStage::NotRegistered => false,
        }
    }
}

/// One more pairing extends the log of the sweep.
pub proof fn lemma_log_step(
    s0: Seq<Client>,
    cur: Seq<Client>,
    n: Seq<Client>,
    o0: Seq<Outgoing>,
    o: Seq<Outgoing>,
    o1: Seq<Outgoing>,
    ps: Seq<(int, int, u128)>,
    i: int,
    j: int,
    off: u128,
    now: u128,
)
    requires
        sweep_effect(s0, cur, o0, o, ps, now),
        pairing_step(cur, n, o, o1, i, j, off, now),
    ensures
        sweep_effect(s0, n, o0, o1, ps.push((i, j, off)), now),
{
    let qs = ps.push((i, j, off));
    let m = ps.len() as int;
    assert(qs.drop_last() =~= ps);
    assert(qs.take(m) =~= ps);
    assert(same_but_lists(s0[i], cur[i]));
    assert(same_but_lists(s0[j], cur[j]));
    assert(same_but_lists(cur[i], n[i]));
    assert(same_but_lists(cur[j], n[j]));
    let (si, sj) = (s0[i].session, s0[j].session);
    // The state after the pairing.
    assert forall|k: int| 0 <= k < s0.len() implies partners(s0, qs, k).len() <= pool(s0[k]).len()
        && pool(#[trigger] n[k]) == pool(s0[k]).take(pool(s0[k]).len() - partners(s0, qs, k).len())
        && intents(n[k]) == without_peers(intents(s0[k]), partners(s0, qs, k)) by {
        let p = pool(s0[k]);
        let c = partners(s0, ps, k).len();
        assert(c <= p.len());
        assert(pool(cur[k]) == p.take(p.len() - c));
        assert(intents(cur[k]) == without_peers(intents(s0[k]), partners(s0, ps, k)));
        if k == i {
            assert(partners(s0, qs, k) == partners(s0, ps, k).push(sj));
            assert(pool(cur[k]).len() > 0);
            assert(p.take(p.len() - c).drop_last() =~= p.take(p.len() - (c + 1)));
            assert(partners(s0, qs, k).drop_last() =~= partners(s0, ps, k));
            assert(cur[j].session == sj);
        } else if k == j {
            assert(partners(s0, qs, k) == partners(s0, ps, k).push(si));
            assert(pool(cur[k]).len() > 0);
            assert(p.take(p.len() - c).drop_last() =~= p.take(p.len() - (c + 1)));
            assert(partners(s0, qs, k).drop_last() =~= partners(s0, ps, k));
            assert(cur[i].session == si);
        } else {
            assert(partners(s0, qs, k) == partners(s0, ps, k));
        }
    }
    assert forall|k: int| 0 <= k < s0.len() implies same_but_lists(#[trigger] s0[k], n[k]) by {
        assert(same_but_lists(s0[k], cur[k]));
        assert(same_but_lists(cur[k], n[k]));
    }
    // The new pairing, read against the state before the sweep.
    let ci = partners(s0, ps, i).len();
    let cj = partners(s0, ps, j).len();
    assert(pool(cur[i]) == pool(s0[i]).take(pool(s0[i]).len() - ci));
    assert(pool(cur[j]) == pool(s0[j]).take(pool(s0[j]).len() - cj));
    assert(pool(cur[i]).len() > 0 && pool(cur[j]).len() > 0);
    assert(pool(cur[i]).last() == port_for(s0, qs, m, i));
    assert(pool(cur[j]).last() == port_for(s0, qs, m, j));
    assert(intents(cur[i]).contains(Connecting::Finishing(sj, off)));
    lemma_without_peers(intents(s0[i]), partners(s0, ps, i), Connecting::Finishing(sj, off));
    let oi = choose|x: u128| intents(cur[i]).contains(Connecting::Finishing(cur[j].session, x));
    lemma_without_peers(intents(s0[i]), partners(s0, ps, i), Connecting::Finishing(sj, oi));
    let oj = choose|x: u128| intents(cur[j]).contains(Connecting::Finishing(cur[i].session, x));
    lemma_without_peers(intents(s0[j]), partners(s0, ps, j), Connecting::Finishing(si, oj));
    assert(mutual(s0[i], s0[j]));
    assert(pool(s0[i]).len() > 0 && pool(s0[j]).len() > 0);
    assert(pairable(s0[i], s0[j]));
    lemma_msg_back(s0, cur, o1[o.len() as int], i, j, pool(cur[i]).last(), pool(cur[j]).last(), start_time(now, off));
    lemma_msg_back(s0, cur, o1[o.len() + 1 as int], j, i, pool(cur[j]).last(), pool(cur[i]).last(), start_time(now, off));
    assert(o.len() == o0.len() + 2 * m);
    assert(pairing_in_log(s0, o0, o1, qs, m, now));
    // The earlier pairings keep their messages.
    assert forall|x: int| 0 <= x < qs.len() implies #[trigger] pairing_in_log(s0, o0, o1, qs, x, now) by {
        if x < m {
            assert(pairing_in_log(s0, o0, o, ps, x, now));
            assert(qs.take(x) =~= ps.take(x));
            assert(qs[x] == ps[x]);
            assert(o1[o0.len() + 2 * x] == o1.subrange(0, o.len() as int)[o0.len() + 2 * x]);
            assert(o1[o0.len() + 2 * x + 1] == o1.subrange(0, o.len() as int)[o0.len() + 2 * x + 1]);
        }
    }
    assert(o1.subrange(0, o0.len() as int) =~= o.subrange(0, o0.len() as int)) by {
        assert forall|x: int| 0 <= x < o0.len() implies o1[x] == o[x] by {
            assert(o1.subrange(0, o.len() as int)[x] == o[x]);
        }
    }
}

pub proof fn lemma_shrunk_refl(a: Seq<Client>)
    ensures
        same_but_lists_all(a, a),
        lists_shrunk(a, a),
{
}

pub proof fn lemma_shrunk_trans(a: Seq<Client>, b: Seq<Client>, c: Seq<Client>)
    requires
        same_but_lists_all(a, b),
        lists_shrunk(a, b),
        same_but_lists_all(b, c),
        lists_shrunk(b, c),
    ensures
        same_but_lists_all(a, c),
        lists_shrunk(a, c),
{
    assert forall|k: int| 0 <= k < a.len() implies same_but_lists(#[trigger] a[k], c[k]) by {
        assert(same_but_lists(a[k], b[k]));
        assert(same_but_lists(b[k], c[k]));
    }
    assert forall|k: int, x: Connecting|
        0 <= k < a.len() && #[trigger] intents(c[k]).contains(x) implies intents(a[k]).contains(x) by {
        assert(intents(b[k]).contains(x));
    }
    assert forall|k: int, p: u16|
        0 <= k < a.len() && #[trigger] pool(c[k]).contains(p) implies pool(a[k]).contains(p) by {
        assert(pool(b[k]).contains(p));
    }
}

/// Every element of `x` is in `y`.
pub open spec fn within<T>(x: Seq<T>, y: Seq<T>) -> bool {
    forall|v: T| #[trigger] x.contains(v) ==> y.contains(v)
}

pub proof fn lemma_drop_last_within<T>(x: Seq<T>)
    requires
        x.len() > 0,
    ensures
        within(x.drop_last(), x),
{
    assert forall|v: T| #[trigger] x.drop_last().contains(v) implies x.contains(v) by {
        let k = choose|k: int| 0 <= k < x.drop_last().len() && x.drop_last()[k] == v;
        assert(x[k] == v);
    }
}

pub proof fn lemma_filter_within<T>(x: Seq<T>, f: spec_fn(T) -> bool)
    ensures
        within(x.filter(f), x),
{
    assert forall|v: T| #[trigger] x.filter(f).contains(v) implies x.contains(v) by {
        x.lemma_filter_contains_rev(f, v);
    }
}

/// One step that replaces client `i`'s lists by sublists of its lists in `s`
/// keeps `b` a shrunk copy of `s`.
pub proof fn lemma_changed_shrinks(
    s: Seq<Client>,
    a: Seq<Client>,
    b: Seq<Client>,
    i: int,
    ni: Seq<Connecting>,
    np: Seq<u16>,
)
    requires
        same_but_lists_all(s, a),
        lists_shrunk(s, a),
        lists_changed(a, b, i, ni, np),
        0 <= i < s.len(),
        within(ni, intents(s[i])),
        within(np, pool(s[i])),
    ensures
        same_but_lists_all(s, b),
        lists_shrunk(s, b),
{
    assert forall|k: int| 0 <= k < s.len() implies same_but_lists(#[trigger] s[k], b[k]) by {
        assert(same_but_lists(s[k], a[k]));
        assert(same_but_lists(a[k], b[k]));
    }
    assert forall|k: int, x: Connecting|
        0 <= k < s.len() && #[trigger] intents(b[k]).contains(x) implies intents(s[k]).contains(x) by {
        if k != i {
            assert(intents(a[k]).contains(x));
        }
    }
    assert forall|k: int, p: u16|
        0 <= k < s.len() && #[trigger] pool(b[k]).contains(p) implies pool(s[k]).contains(p) by {
        if k != i {
            assert(pool(a[k]).contains(p));
        }
    }
}

} // verus!
