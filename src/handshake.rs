//! The pairing handshake: Request, RequestResponse and RequestFinal turn into
//! per-pair intents and are forwarded to the other side.
use vstd::prelude::*;

use crate::packets::{
    Adress, NewRequest, NewRequestFinal, NewRequestResponse, Packets, Request, RequestFinal,
    RequestResponse,
};
use crate::registry::{
    adress_of, clients_wf, same_but_lists, same_but_lists_all, finisher, holds_adress, intents, is_registered, lemma_same_but_lists_wf,
    lists_changed, not_with, pool, Client, ClientStage, Connecting, Outgoing, RelayServer,
};

verus! {

/// The registered client that holds address `a` (unique in a well-formed registry).
pub open spec fn owner(s: Seq<Client>, a: Seq<u8>) -> int {
    choose|t: int| 0 <= t < s.len() && holds_adress(s[t], a)
}

pub open spec fn has_owner(s: Seq<Client>, a: Seq<u8>) -> bool {
    exists|t: int| 0 <= t < s.len() && holds_adress(s[t], a)
}

pub proof fn lemma_owner_unique(s: Seq<Client>, a: Seq<u8>, t: int)
    requires
        clients_wf(s),
        0 <= t < s.len(),
        holds_adress(s[t], a),
    ensures
        has_owner(s, a),
        owner(s, a) == t,
{
    let o = owner(s, a);
    assert(0 <= o < s.len() && holds_adress(s[o], a));
    if o != t {
        assert(is_registered(s[o]) && is_registered(s[t]));
    }
}

/// A forwarded request, addressed to session `to`.
pub open spec fn new_request_msg(o: Outgoing, to: usize, from: Seq<u8>, secret: Seq<char>) -> bool {
    &&& o.session == to
    &&& match o.packet {
        Packets::NewRequest(p) => p.session == to && p.from@ == from && p.secret@ == secret,
        _ => false,
    }
}

/// A forwarded answer to a request, addressed to session `to`.
pub open spec fn new_response_msg(
    o: Outgoing,
    to: usize,
    from: Seq<u8>,
    accepted: bool,
    secret: Seq<char>,
) -> bool {
    &&& o.session == to
    &&& match o.packet {
        Packets::NewRequestResponse(p) => p.session == to && p.from@ == from && p.accepted
            == accepted && p.secret@ == secret,
        _ => false,
    }
}

/// A forwarded final step, addressed to session `to`.
pub open spec fn new_final_msg(o: Outgoing, to: usize, from: Seq<u8>, accepted: bool) -> bool {
    &&& o.session == to
    &&& match o.packet {
        Packets::NewRequestFinal(p) => p.session == to && p.from@ == from && p.accepted
            == accepted,
        _ => false,
    }
}

/// What the final step does to one side's intents about the other side.
pub open spec fn settle(s: Seq<Connecting>, p: usize, accepted: bool, off: u128) -> Seq<
    Connecting,
> {
    if accepted {
        s.map(finisher(p, off))
    } else {
        s.filter(not_with(p))
    }
}

/// A copy of an address.
pub fn copy_adress(a: &Adress) -> (r: Adress)
    ensures
        r@ == a@,
{
    let mut r: Vec<u8> = Vec::new();
    let mut i: usize = 0;
    while i < a.len()
        invariant
            i <= a@.len(),
            r@ == a@.subrange(0, i as int),
        decreases a@.len() - i,
    {
        r.push(a[i]);
        i += 1;
        assert(r@ =~= a@.subrange(0, i as int));
    }
    assert(a@.subrange(0, a@.len() as int) =~= a@);
    r
}

/// Whether the list holds `Start(p)`.
pub fn holds_start(list: &Vec<Connecting>, p: usize) -> (r: bool)
    ensures
        r == list@.contains(Connecting::Start(p)),
{
    let mut i: usize = 0;
    while i < list.len()
        invariant
            i <= list@.len(),
            forall|k: int| 0 <= k < i ==> list@[k] != Connecting::Start(p),
        decreases list@.len() - i,
    {
        if list[i] == Connecting::Start(p) {
            assert(list@[i as int] == Connecting::Start(p));
            return true;
        }
        i += 1;
    }
    false
}

/// What `on_request` does, from registry `s` and outbox `o0` to `n` and `o1`.
pub open spec fn request_effect(
    s0: Seq<Client>,
    n: Seq<Client>,
    o0: Seq<Outgoing>,
    o1: Seq<Outgoing>,
    index: usize,
    request: Request,
) -> bool {
    let s = s0;
    &&& {
        let s = s;
        let a = s[index as int];
        let t = owner(s, request.to@);
        if !is_registered(a) {
            n =~= s && o1 =~= o0
        } else if has_owner(s, request.to@) {
            &&& lists_changed(
                s,
                n,
                index as int,
                intents(a).push(Connecting::Start(s[t].session)),
                pool(a),
            )
            &&& o1.len() == o0.len() + 1
            &&& o1.drop_last() =~= o0
            &&& new_request_msg(
                o1.last(),
                s[t].session,
                adress_of(a),
                request.secret@,
            )
        } else {
            &&& n =~= s
            &&& o1.len() == o0.len() + 1
            &&& o1.drop_last() =~= o0
            &&& new_response_msg(
                o1.last(),
                a.session,
                request.to@,
                false,
                Seq::empty(),
            )
        }
    }
}

/// What `on_request_response` does, from registry `s` and outbox `o0` to `n` and `o1`.
pub open spec fn response_effect(
    s0: Seq<Client>,
    n: Seq<Client>,
    o0: Seq<Outgoing>,
    o1: Seq<Outgoing>,
    index: usize,
    rr: RequestResponse,
) -> bool {
    let s = s0;
    &&& {
        let s = s;
        let a = s[index as int];
        let t = owner(s, rr.to@);
        if !(is_registered(a) && has_owner(s, rr.to@) && intents(s[t]).contains(
            Connecting::Start(a.session),
        )) {
            n =~= s && o1 =~= o0
        } else {
            &&& o1.len() == o0.len() + 1
            &&& o1.drop_last() =~= o0
            &&& new_response_msg(
                o1.last(),
                s[t].session,
                adress_of(a),
                rr.accepted,
                rr.secret@,
            )
            &&& rr.accepted ==> lists_changed(
                s,
                n,
                index as int,
                intents(a).push(Connecting::Start(s[t].session)),
                pool(a),
            )
            &&& !rr.accepted ==> lists_changed(
                s,
                n,
                t,
                intents(s[t]).filter(not_with(a.session)),
                pool(s[t]),
            )
        }
    }
}

/// What `on_request_final` does, from registry `s` and outbox `o0` to `n` and `o1`.
pub open spec fn final_effect(
    s0: Seq<Client>,
    n: Seq<Client>,
    o0: Seq<Outgoing>,
    o1: Seq<Outgoing>,
    index: usize,
    rf: RequestFinal,
) -> bool {
    let s = s0;
    &&& {
        let s = s;
        let a = s[index as int];
        let t = owner(s, rf.to@);
        if !(is_registered(a) && has_owner(s, rf.to@) && intents(s[t]).contains(
            Connecting::Start(a.session),
        )) {
            n =~= s && o1 =~= o0
        } else {
            &&& o1.len() == o0.len() + 1
            &&& o1.drop_last() =~= o0
            &&& new_final_msg(o1.last(), s[t].session, adress_of(a), rf.accepted)
            &&& same_but_lists_all(s, n)
            &&& forall|k: int|
                0 <= k < s.len() ==> pool(#[trigger] n[k]) == pool(
                    s[k],
                )
            &&& forall|k: int|
                0 <= k < s.len() ==> intents(#[trigger] n[k]) == if k
                    == t && k == index {
                    settle(
                        settle(intents(s[k]), a.session, rf.accepted, rf.time_offset),
                        s[t].session,
                        rf.accepted,
                        rf.time_offset,
                    )
                } else if k == t {
                    settle(intents(s[k]), a.session, rf.accepted, rf.time_offset)
                } else if k == index {
                    settle(intents(s[k]), s[t].session, rf.accepted, rf.time_offset)
                } else {
                    intents(s[k])
                }
        }
    }
}

impl RelayServer {
    /// The registered address of client `index`, if it is registered.
    pub fn adress_at(&self, index: usize) -> (r: Option<Adress>)
        requires
            index < self.clients@.len(),
        ensures
            match r {
                Some(a) => is_registered(self.clients@[index as int]) && a@ == adress_of(
                    self.clients@[index as int],
                ),
                None => !is_registered(self.clients@[index as int]),
            },
    {
        match &self.clients[index].stage {
            ClientStage::Registered(r) => Some(copy_adress(&r.adress)),
            ClientStage::NotRegistered => None,
        }
    }

    /// Client `index` asks to be paired with the owner of `request.to`.
    /// The owner is told (NewRequest) and the asker records `Start(owner)`;
    /// with no owner the asker is refused at once.
    pub fn on_request(&mut self, index: usize, request: Request, out: &mut Vec<Outgoing>)
        requires
            old(self).wf(),
            index < old(self).clients@.len(),
        ensures
            final(self).wf(),
            final(self).client_timeout == old(self).client_timeout,
            request_effect(
                old(self).clients@,
                final(self).clients@,
                old(out)@,
                final(out)@,
                index,
                request,
            ),
    {
        let ghost s = self.clients@;
        let from = match self.adress_at(index) {
            Some(a) => a,
            None => return ,
        };
        match self.owner_of(&request.to) {
            Some(t) => {
                proof {
                    lemma_owner_unique(s, request.to@, t as int);
                }
                let peer = self.clients[t].session;
                out.push(
                    Outgoing {
                        session: peer,
                        packet: Packets::NewRequest(
                            NewRequest { session: peer, from, secret: request.secret },
                        ),
                    },
                );
                self.push_intent(index, Connecting::Start(peer));
                proof {
                    lemma_same_but_lists_wf(s, self.clients@);
                }
            },
            None => {
                let me = self.clients[index].session;
                let empty = String::new();
                out.push(
                    Outgoing {
                        session: me,
                        packet: Packets::NewRequestResponse(
                            NewRequestResponse {
                                session: me,
                                from: request.to,
                                accepted: false,
                                secret: empty,
                            },
                        ),
                    },
                );
            },
        }
    }

    /// Client `index` answers the request of the owner of `rr.to`. The answer
    /// is taken only when that owner holds `Start(index's session)`; it is
    /// forwarded (NewRequestResponse). On acceptance the answering client
    /// records `Start(owner)`; on rejection the owner drops its intents about
    /// the answering client, and nothing else changes.
    pub fn on_request_response(
        &mut self,
        index: usize,
        rr: RequestResponse,
        out: &mut Vec<Outgoing>,
    )
        requires
            old(self).wf(),
            index < old(self).clients@.len(),
        ensures
            final(self).wf(),
            final(self).client_timeout == old(self).client_timeout,
            response_effect(
                old(self).clients@,
                final(self).clients@,
                old(out)@,
                final(out)@,
                index,
                rr,
            ),
    {
        let ghost s = self.clients@;
        let from = match self.adress_at(index) {
            Some(a) => a,
            None => return ,
        };
        let me = self.clients[index].session;
        let t = match self.owner_of(&rr.to) {
            Some(t) => t,
            None => return ,
        };
        proof {
            lemma_owner_unique(s, rr.to@, t as int);
        }
        let waiting = match &self.clients[t].stage {
            ClientStage::Registered(r) => holds_start(&r.to_connect, me),
            ClientStage::NotRegistered => false,
        };
        if !waiting {
            return ;
        }
        let peer = self.clients[t].session;
        out.push(
            Outgoing {
                session: peer,
                packet: Packets::NewRequestResponse(
                    NewRequestResponse {
                        session: peer,
                        from,
                        accepted: rr.accepted,
                        secret: rr.secret,
                    },
                ),
            },
        );
        if rr.accepted {
            self.push_intent(index, Connecting::Start(peer));
        } else {
            self.drop_intents(t, me);
        }
        proof {
            lemma_same_but_lists_wf(s, self.clients@);
        }
    }

    /// Client `index` (the asker) takes the final step towards the
    /// owner of `rf.to`, which must hold `Start(index's session)`. The step is
    /// forwarded (NewRequestFinal). On acceptance both sides' intents about
    /// each other become `Finishing(_, rf.time_offset)`; on rejection both
    /// sides drop them. Nothing else changes.
    pub fn on_request_final(&mut self, index: usize, rf: RequestFinal, out: &mut Vec<Outgoing>)
        requires
            old(self).wf(),
            index < old(self).clients@.len(),
        ensures
            final(self).wf(),
            final(self).client_timeout == old(self).client_timeout,
            final_effect(
                old(self).clients@,
                final(self).clients@,
                old(out)@,
                final(out)@,
                index,
                rf,
            ),
    {
        let ghost s = self.clients@;
        let from = match self.adress_at(index) {
            Some(a) => a,
            None => return ,
        };
        let me = self.clients[index].session;
        let t = match self.owner_of(&rf.to) {
            Some(t) => t,
            None => return ,
        };
        proof {
            lemma_owner_unique(s, rf.to@, t as int);
        }
        let waiting = match &self.clients[t].stage {
            ClientStage::Registered(r) => holds_start(&r.to_connect, me),
            ClientStage::NotRegistered => false,
        };
        if !waiting {
            return ;
        }
        let peer = self.clients[t].session;
        out.push(
            Outgoing {
                session: peer,
                packet: Packets::NewRequestFinal(
                    NewRequestFinal { session: peer, from, accepted: rf.accepted },
                ),
            },
        );
        let ghost mid;
        if rf.accepted {
            self.finish_intents(t, me, rf.time_offset);
            proof {
                mid = self.clients@;
            }
            self.finish_intents(index, peer, rf.time_offset);
        } else {
            self.drop_intents(t, me);
            proof {
                mid = self.clients@;
            }
            self.drop_intents(index, peer);
        }
        proof {
            assert(same_but_lists_all(s, self.clients@)) by {
                assert forall|i: int| 0 <= i < s.len() implies same_but_lists(
                    #[trigger] s[i],
                    self.clients@[i],
                ) by {
                    assert(same_but_lists(s[i], mid[i]));
                    assert(same_but_lists(mid[i], self.clients@[i]));
                }
            }
            lemma_same_but_lists_wf(s, self.clients@);
        }
    }
}

} // verus!
