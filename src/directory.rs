//! Looking clients up: Search (filters over the registered clients) and
//! InfoRequest (what a client registered under an address).
use vstd::prelude::*;

use crate::handshake::copy_adress;
use crate::packets::{Adress, Info, InfoRequest, Packets, Search, SearchResponse, SearchType};
use crate::registry::{
    adress_of, holds_adress, is_registered, record, Client, ClientStage, Outgoing, RelayServer,
};

verus! {

/// `n` occurs in `h` as a contiguous run.
pub open spec fn occurs_in<T>(h: Seq<T>, n: Seq<T>) -> bool {
    exists|i: int| 0 <= i && i + n.len() <= h.len() && #[trigger] h.subrange(i, i + n.len()) == n
}

pub open spec fn text_passes(f: SearchType<String>, v: Seq<char>) -> bool {
    match f {
        SearchType::Fuzzy(x) => occurs_in(v, x@),
        SearchType::Exact(x) => v == x@,
        SearchType::Any => true,
    }
}

pub open spec fn bytes_pass(f: SearchType<Vec<u8>>, v: Seq<u8>) -> bool {
    match f {
        SearchType::Fuzzy(x) => occurs_in(v, x@),
        SearchType::Exact(x) => v == x@,
        SearchType::Any => true,
    }
}

/// The client is registered and passes the three filters.
pub open spec fn passes(q: Search, c: Client) -> bool {
    &&& is_registered(c)
    &&& text_passes(q.name, record(c).name@)
    &&& text_passes(q.client, record(c).client@)
    &&& bytes_pass(q.other, record(c).other@)
}

/// The addresses a search finds, in registry order.
pub open spec fn search_results(s: Seq<Client>, q: Search) -> Seq<Seq<u8>>
    decreases s.len(),
{
    if s.len() == 0 {
        Seq::empty()
    } else {
        let r = search_results(s.drop_last(), q);
        if passes(q, s.last()) {
            r.push(adress_of(s.last()))
        } else {
            r
        }
    }
}

pub open spec fn adresses_view(v: Seq<Adress>) -> Seq<Seq<u8>> {
    v.map_values(|a: Adress| a@)
}

/// Relies on str::contains: whether the pattern occurs in the text.
#[verifier::external_body]
fn text_contains(h: &String, n: &String) -> (r: bool)
    ensures
        r == occurs_in(h@, n@),
{
    h.as_str().contains(n.as_str())
}

/// Whether `n` occurs in `h` as a contiguous run of bytes.
pub fn bytes_contain(h: &Vec<u8>, n: &Vec<u8>) -> (r: bool)
    ensures
        r == occurs_in(h@, n@),
{
    if n.len() > h.len() {
        return false;
    }
    let last = h.len() - n.len();
    let mut i: usize = 0;
    loop
        invariant
            last == h@.len() - n@.len(),
            h@.len() <= usize::MAX,
            i <= last,
            forall|k: int| 0 <= k < i ==> #[trigger] h@.subrange(k, k + n@.len()) != n@,
        ensures
            i == last,
            forall|k: int| 0 <= k <= i ==> #[trigger] h@.subrange(k, k + n@.len()) != n@,
        decreases last - i,
    {
        let mut j: usize = 0;
        let mut same = true;
        while j < n.len()
            invariant
                i <= last,
                last == h@.len() - n@.len(),
                h@.len() <= usize::MAX,
                j <= n@.len(),
                same == forall|m: int| 0 <= m < j ==> h@[i + m] == n@[m],
            decreases n@.len() - j,
        {
            if h[i + j] != n[j] {
                same = false;
            }
            j += 1;
        }
        if same {
            assert(h@.subrange(i as int, i + n@.len()) =~= n@);
            return true;
        }
        proof {
            let m = choose|m: int| 0 <= m < n@.len() && h@[i + m] != n@[m];
            assert(h@.subrange(i as int, i + n@.len())[m] != n@[m]);
        }
        if i == last {
            break;
        }
        i += 1;
    }
    proof {
        assert forall|k: int| 0 <= k && k + n@.len() <= h@.len() implies #[trigger] h@.subrange(
            k,
            k + n@.len(),
        ) != n@ by {
            assert(k <= i);
        }
    }
    false
}

pub fn text_filter(f: &SearchType<String>, v: &String) -> (r: bool)
    ensures
        r == text_passes(*f, v@),
{
    match f {
        SearchType::Fuzzy(x) => text_contains(v, x),
        SearchType::Exact(x) => *v == *x,
        SearchType::Any => true,
    }
}

pub fn bytes_filter(f: &SearchType<Vec<u8>>, v: &Vec<u8>) -> (r: bool)
    ensures
        r == bytes_pass(*f, v@),
{
    match f {
        SearchType::Fuzzy(x) => bytes_contain(v, x),
        SearchType::Exact(x) => crate::registry::same_adress(v, x),
        SearchType::Any => true,
    }
}

/// The reply to an InfoRequest about address `a`, from state `s`.
pub open spec fn info_reply(s: Seq<Client>, a: Seq<u8>, i: Info) -> bool {
    if exists|t: int| 0 <= t < s.len() && holds_adress(s[t], a) {
        let t = choose|t: int| 0 <= t < s.len() && holds_adress(s[t], a);
        &&& i.has
        &&& i.name@ == record(s[t]).name@
        &&& i.client@ == record(s[t]).client@
        &&& i.other@ == record(s[t]).other@
        &&& i.adress@ == a
    } else {
        &&& !i.has
        &&& i.name@.len() == 0
        &&& i.client@.len() == 0
        &&& i.other@.len() == 0
        &&& i.adress@.len() == 0
    }
}

/// What `on_search` does, from registry `s` and outbox `o0` to `n` and `o1`.
pub open spec fn search_effect(
    s: Seq<Client>,
    n: Seq<Client>,
    o0: Seq<Outgoing>,
    o1: Seq<Outgoing>,
    index: usize,
    search: Search,
) -> bool {
    &&& n =~= s
    &&& o1.drop_last() =~= o0
    &&& o1.len() == o0.len() + 1
    &&& o1.last().session == s[index as int].session
    &&& match o1.last().packet {
        Packets::SearchResponse(p) => p.session == s[index as int].session
            && adresses_view(p.adresses@) == search_results(s, search),
        _ => false,
    }
}

/// What `on_info` does, from registry `s` and outbox `o0` to `n` and `o1`.
pub open spec fn info_effect(
    s: Seq<Client>,
    n: Seq<Client>,
    o0: Seq<Outgoing>,
    o1: Seq<Outgoing>,
    index: usize,
    info: InfoRequest,
) -> bool {
    &&& n =~= s
    &&& o1.drop_last() =~= o0
    &&& o1.len() == o0.len() + 1
    &&& o1.last().session =~= s[index as int].session
    &&& match o1.last().packet {
        Packets::Info(i) => info_reply(s, info.adress@, i),
        _ => false,
    }
}

impl RelayServer {
    /// The addresses of the registered clients that pass the search.
    pub fn find(&self, q: &Search) -> (r: Vec<Adress>)
        ensures
            adresses_view(r@) == search_results(self.clients@, *q),
    {
        let mut r: Vec<Adress> = Vec::new();
        let mut i: usize = 0;
        while i < self.clients.len()
            invariant
                i <= self.clients@.len(),
                adresses_view(r@) == search_results(self.clients@.subrange(0, i as int), *q),
            decreases self.clients@.len() - i,
        {
            let ghost pre = self.clients@.subrange(0, i as int);
            proof {
                assert(self.clients@.subrange(0, i + 1).drop_last() =~= pre);
            }
            match &self.clients[i].stage {
                ClientStage::Registered(c) => {
                    if text_filter(&q.name, &c.name) && text_filter(&q.client, &c.client)
                        && bytes_filter(&q.other, &c.other) {
                        let ghost before = r@;
                        r.push(copy_adress(&c.adress));
                        assert(adresses_view(r@) =~= adresses_view(before).push(c.adress@));
                    }
                },
                ClientStage::NotRegistered => {},
            }
            i += 1;
        }
        assert(self.clients@.subrange(0, self.clients@.len() as int) =~= self.clients@);
        r
    }

    /// Answers client `index`'s search with the addresses found.
    pub fn on_search(&mut self, index: usize, search: Search, out: &mut Vec<Outgoing>)
        requires
            index < old(self).clients@.len(),
        ensures
            final(self).client_timeout == old(self).client_timeout,
            search_effect(
                old(self).clients@,
                final(self).clients@,
                old(out)@,
                final(out)@,
                index,
                search,
            ),
    {
        let adresses = self.find(&search);
        let session = self.clients[index].session;
        out.push(
            Outgoing { session, packet: Packets::SearchResponse(SearchResponse { session, adresses }) },
        );
    }

    /// Answers client `index` with what the owner of `info.adress` registered,
    /// or with `has = false` and empty details when nobody holds it.
    pub fn on_info(&mut self, index: usize, info: InfoRequest, out: &mut Vec<Outgoing>)
        requires
            old(self).wf(),
            index < old(self).clients@.len(),
        ensures
            final(self).client_timeout == old(self).client_timeout,
            info_effect(
                old(self).clients@,
                final(self).clients@,
                old(out)@,
                final(out)@,
                index,
                info,
            ),
    {
        let session = self.clients[index].session;
        let reply = match self.owner_of(&info.adress) {
            Some(t) => {
                proof {
                    crate::handshake::lemma_owner_unique(self.clients@, info.adress@, t as int);
                }
                match &self.clients[t].stage {
                    ClientStage::Registered(c) => Info {
                        has: true,
                        name: c.name.clone(),
                        client: c.client.clone(),
                        other: copy_adress(&c.other),
                        adress: copy_adress(&c.adress),
                    },
                    ClientStage::NotRegistered => Info {
                        has: false,
                        name: String::new(),
                        client: String::new(),
                        other: Vec::new(),
                        adress: Vec::new(),
                    },
                }
            },
            None => Info {
                has: false,
                name: String::new(),
                client: String::new(),
                other: Vec::new(),
                adress: Vec::new(),
            },
        };
        out.push(Outgoing { session, packet: Packets::Info(reply) });
    }
}

} // verus!
