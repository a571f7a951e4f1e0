//! The wire form of the messages: each value laid out as bytes-kman lays it
//! out (integers little-endian, lengths and variant indices as 8-byte
//! integers, text as its UTF-8 bytes), and the whole reversed on the wire.
use bytes_kman::TBytes;
use vstd::bytes::{
    u128_from_le_bytes, u16_from_le_bytes, u64_from_le_bytes,
    lemma_auto_spec_u128_to_from_le_bytes, lemma_auto_spec_u16_to_from_le_bytes,
    lemma_auto_spec_u64_to_from_le_bytes,
    spec_u128_from_le_bytes, spec_u128_to_le_bytes, spec_u16_from_le_bytes, spec_u16_to_le_bytes,
    spec_u64_from_le_bytes, spec_u64_to_le_bytes,
};
use vstd::prelude::*;
use vstd::slice::{slice_subrange, slice_to_vec};

use crate::directory::adresses_view;
use crate::handshake::copy_adress;
use crate::packets::{
    Adress, ConnectOn, Info, InfoRequest, NewRequest, NewRequestFinal, NewRequestResponse, Packets,
    Register, RegisterResponse, Request, RequestFinal, RequestResponse, Search, SearchResponse,
    SearchType, UnRegister,
};
use vstd::utf8::{encode_utf8, is_ascii_chars, is_ascii_chars_encode_utf8};

verus! {

/// The kinds of value a message is made of.
#[derive(Clone, Copy, Debug, PartialEq, Eq, Structural)]
pub enum Kind {
    U16,
    USize,
    U128,
    Flag,
    Bytes,
    Text,
    Adresses,
    TextFilter,
    BytesFilter,
}

/// A value of a message, as a mathematical value.
pub enum Field {
    Num(int),
    Flag(bool),
    Bytes(Seq<u8>),
    Text(Seq<char>),
    Adresses(Seq<Seq<u8>>),
    /// A search filter: 0 fuzzy, 1 exact, 2 none (with no value).
    TextFilter(nat, Seq<char>),
    BytesFilter(nat, Seq<u8>),
}

pub open spec fn le64(n: int) -> Seq<u8> {
    spec_u64_to_le_bytes(n as u64)
}

pub open spec fn enc_bytes(v: Seq<u8>) -> Seq<u8> {
    le64(v.len() as int) + v
}

pub open spec fn enc_text(c: Seq<char>) -> Seq<u8> {
    enc_bytes(encode_utf8(c))
}

pub open spec fn enc_list(l: Seq<Seq<u8>>) -> Seq<u8>
    decreases l.len(),
{
    if l.len() == 0 {
        Seq::empty()
    } else {
        enc_list(l.drop_last()) + enc_bytes(l.last())
    }
}

/// The bytes of one value of kind `k`.
pub open spec fn enc_field(k: Kind, f: Field) -> Seq<u8> {
    match (k, f) {
        (Kind::U16, Field::Num(v)) => spec_u16_to_le_bytes(v as u16),
        (Kind::USize, Field::Num(v)) => le64(v),
        (Kind::U128, Field::Num(v)) => spec_u128_to_le_bytes(v as u128),
        (Kind::Flag, Field::Flag(b)) => seq![if b { 1u8 } else { 0u8 }],
        (Kind::Bytes, Field::Bytes(v)) => enc_bytes(v),
        (Kind::Text, Field::Text(c)) => enc_text(c),
        (Kind::Adresses, Field::Adresses(l)) => le64(l.len() as int) + enc_list(l),
        (Kind::TextFilter, Field::TextFilter(t, c)) => le64(t as int) + if t < 2 {
            enc_text(c)
        } else {
            Seq::empty()
        },
        (Kind::BytesFilter, Field::BytesFilter(t, v)) => le64(t as int) + if t < 2 {
            enc_bytes(v)
        } else {
            Seq::empty()
        },
        _ => Seq::empty(),
    }
}

pub open spec fn enc_fields(ks: Seq<Kind>, fs: Seq<Field>) -> Seq<u8>
    decreases ks.len(),
{
    if ks.len() == 0 || fs.len() == 0 {
        Seq::empty()
    } else {
        enc_field(ks[0], fs[0]) + enc_fields(ks.drop_first(), fs.drop_first())
    }
}

/// Text as read back: each byte one character.
pub open spec fn latin(b: Seq<u8>) -> Seq<char> {
    b.map_values(|x: u8| x as char)
}

pub open spec fn parse_bytes(b: Seq<u8>) -> Option<(Seq<u8>, int)> {
    if b.len() < 8 {
        None
    } else {
        let n = spec_u64_from_le_bytes(b.take(8)) as int;
        if n > usize::MAX || b.len() < 8 + n {
            None
        } else {
            Some((b.subrange(8, 8 + n), 8 + n))
        }
    }
}

pub open spec fn parse_text(b: Seq<u8>) -> Option<(Seq<char>, int)> {
    match parse_bytes(b) {
        Some((v, n)) => Some((latin(v), n)),
        None => None,
    }
}

/// `n` byte strings one after the other.
pub open spec fn parse_list(b: Seq<u8>, n: nat) -> Option<(Seq<Seq<u8>>, int)>
    decreases n,
{
    if n == 0 {
        Some((Seq::empty(), 0))
    } else {
        match parse_list(b, (n - 1) as nat) {
            Some((l, m)) => match parse_bytes(b.skip(m)) {
                Some((v, k)) => Some((l.push(v), m + k)),
                None => None,
            },
            None => None,
        }
    }
}

/// The value of kind `k` at the start of `b`, and how many bytes it takes.
pub open spec fn parse_field(b: Seq<u8>, k: Kind) -> Option<(Field, int)> {
    match k {
        Kind::U16 => if b.len() >= 2 {
            Some((Field::Num(spec_u16_from_le_bytes(b.take(2)) as int), 2))
        } else {
            None
        },
        Kind::USize => if b.len() >= 8 && spec_u64_from_le_bytes(b.take(8)) <= usize::MAX {
            Some((Field::Num(spec_u64_from_le_bytes(b.take(8)) as int), 8))
        } else {
            None
        },
        Kind::U128 => if b.len() >= 16 {
            Some((Field::Num(spec_u128_from_le_bytes(b.take(16)) as int), 16))
        } else {
            None
        },
        Kind::Flag => if b.len() >= 1 {
            Some((Field::Flag(b[0] != 0), 1))
        } else {
            None
        },
        Kind::Bytes => match parse_bytes(b) {
            Some((v, n)) => Some((Field::Bytes(v), n)),
            None => None,
        },
        Kind::Text => match parse_text(b) {
            Some((c, n)) => Some((Field::Text(c), n)),
            None => None,
        },
        Kind::Adresses => if b.len() < 8 || spec_u64_from_le_bytes(b.take(8)) > usize::MAX {
            None
        } else {
            match parse_list(b.skip(8), spec_u64_from_le_bytes(b.take(8)) as nat) {
                Some((l, m)) => Some((Field::Adresses(l), 8 + m)),
                None => None,
            }
        },
        Kind::TextFilter => if b.len() < 8 {
            None
        } else {
            let t = spec_u64_from_le_bytes(b.take(8)) as nat;
            if t < 2 {
                match parse_text(b.skip(8)) {
                    Some((c, m)) => Some((Field::TextFilter(t, c), 8 + m)),
                    None => None,
                }
            } else if t == 2 {
                Some((Field::TextFilter(2, Seq::empty()), 8))
            } else {
                None
            }
        },
        Kind::BytesFilter => if b.len() < 8 {
            None
        } else {
            let t = spec_u64_from_le_bytes(b.take(8)) as nat;
            if t < 2 {
                match parse_bytes(b.skip(8)) {
                    Some((v, m)) => Some((Field::BytesFilter(t, v), 8 + m)),
                    None => None,
                }
            } else if t == 2 {
                Some((Field::BytesFilter(2, Seq::empty()), 8))
            } else {
                None
            }
        },
    }
}

/// The values of kinds `ks`, one after the other.
pub open spec fn parse_fields(b: Seq<u8>, ks: Seq<Kind>) -> Option<(Seq<Field>, int)>
    decreases ks.len(),
{
    if ks.len() == 0 {
        Some((Seq::empty(), 0))
    } else {
        match parse_field(b, ks[0]) {
            Some((f, n)) => match parse_fields(b.skip(n), ks.drop_first()) {
                Some((fs, m)) => Some((seq![f] + fs, n + m)),
                None => None,
            },
            None => None,
        }
    }
}

/// A value that encodes and reads back as itself.
pub open spec fn field_fits(k: Kind, f: Field) -> bool {
    match (k, f) {
        (Kind::U16, Field::Num(v)) => 0 <= v <= u16::MAX,
        (Kind::USize, Field::Num(v)) => 0 <= v <= usize::MAX,
        (Kind::U128, Field::Num(v)) => 0 <= v <= u128::MAX,
        (Kind::Flag, Field::Flag(_)) => true,
        (Kind::Bytes, Field::Bytes(v)) => v.len() <= usize::MAX,
        (Kind::Text, Field::Text(c)) => is_ascii_chars(c) && c.len() <= usize::MAX,
        (Kind::Adresses, Field::Adresses(l)) => l.len() <= usize::MAX && forall|i: int|
            0 <= i < l.len() ==> (#[trigger] l[i]).len() <= usize::MAX,
        (Kind::TextFilter, Field::TextFilter(t, c)) => (t < 2 && is_ascii_chars(c) && c.len()
            <= usize::MAX) || (t == 2 && c.len() == 0),
        (Kind::BytesFilter, Field::BytesFilter(t, v)) => (t < 2 && v.len() <= usize::MAX) || (t
            == 2 && v.len() == 0),
        _ => false,
    }
}

pub open spec fn fields_fit(ks: Seq<Kind>, fs: Seq<Field>) -> bool {
    ks.len() == fs.len() && forall|i: int| 0 <= i < ks.len() ==> field_fits(ks[i], #[trigger] fs[i])
}

pub proof fn lemma_le64(n: int)
    requires
        0 <= n <= u64::MAX,
    ensures
        le64(n).len() == 8,
        spec_u64_from_le_bytes(le64(n)) as int == n,
{
    lemma_auto_spec_u64_to_from_le_bytes();
}

pub proof fn lemma_parse_enc_bytes(v: Seq<u8>, rest: Seq<u8>)
    requires
        v.len() <= usize::MAX,
    ensures
        parse_bytes(enc_bytes(v) + rest) == Some((v, 8 + v.len() as int)),
        enc_bytes(v).len() == 8 + v.len(),
{
    lemma_le64(v.len() as int);
    let b = enc_bytes(v) + rest;
    assert(b.take(8) =~= le64(v.len() as int));
    assert(b.subrange(8, 8 + v.len() as int) =~= v);
}

/// ASCII text is its own UTF-8 encoding, read back byte by byte.
pub proof fn lemma_latin_ascii(c: Seq<char>)
    requires
        is_ascii_chars(c),
    ensures
        latin(encode_utf8(c)) == c,
        encode_utf8(c).len() == c.len(),
{
    is_ascii_chars_encode_utf8(c);
    assert forall|i: int| 0 <= i < c.len() implies #[trigger] latin(encode_utf8(c))[i] == c[i] by {
        assert(c[i] as u8 == encode_utf8(c)[i]);
        assert('\0' <= c[i] <= '\u{7f}');
    }
    assert(latin(encode_utf8(c)) =~= c);
}

pub proof fn lemma_parse_enc_text(c: Seq<char>, rest: Seq<u8>)
    requires
        is_ascii_chars(c),
        c.len() <= usize::MAX,
    ensures
        parse_text(enc_text(c) + rest) == Some((c, 8 + c.len() as int)),
        enc_text(c).len() == 8 + c.len(),
{
    lemma_latin_ascii(c);
    lemma_parse_enc_bytes(encode_utf8(c), rest);
}

pub proof fn lemma_parse_enc_list(l: Seq<Seq<u8>>, rest: Seq<u8>)
    requires
        forall|i: int| 0 <= i < l.len() ==> (#[trigger] l[i]).len() <= usize::MAX,
    ensures
        parse_list(enc_list(l) + rest, l.len()) == Some((l, enc_list(l).len() as int)),
    decreases l.len(),
{
    if l.len() > 0 {
        let d = l.drop_last();
        let r2 = enc_bytes(l.last()) + rest;
        assert(enc_list(l) + rest =~= enc_list(d) + r2);
        assert(forall|i: int| 0 <= i < d.len() ==> d[i] == l[i]);
        lemma_parse_enc_list(d, r2);
        lemma_parse_enc_bytes(l.last(), rest);
        assert((enc_list(l) + rest).skip(enc_list(d).len() as int) =~= r2);
        assert(d.push(l.last()) =~= l);
    }
}

/// A fitting value reads back as itself, whatever follows it.
pub proof fn lemma_parse_enc_field(k: Kind, f: Field, rest: Seq<u8>)
    requires
        field_fits(k, f),
    ensures
        parse_field(enc_field(k, f) + rest, k) == Some((f, enc_field(k, f).len() as int)),
{
    lemma_auto_spec_u16_to_from_le_bytes();
    lemma_auto_spec_u64_to_from_le_bytes();
    lemma_auto_spec_u128_to_from_le_bytes();
    let b = enc_field(k, f) + rest;
    match (k, f) {
        (Kind::U16, Field::Num(v)) => {
            assert(b.take(2) =~= spec_u16_to_le_bytes(v as u16));
        },
        (Kind::USize, Field::Num(v)) => {
            assert(b.take(8) =~= le64(v));
        },
        (Kind::U128, Field::Num(v)) => {
            assert(b.take(16) =~= spec_u128_to_le_bytes(v as u128));
        },
        (Kind::Flag, Field::Flag(x)) => {},
        (Kind::Bytes, Field::Bytes(v)) => {
            lemma_parse_enc_bytes(v, rest);
        },
        (Kind::Text, Field::Text(c)) => {
            lemma_parse_enc_text(c, rest);
        },
        (Kind::Adresses, Field::Adresses(l)) => {
            lemma_le64(l.len() as int);
            assert(b.take(8) =~= le64(l.len() as int));
            assert(b.skip(8) =~= enc_list(l) + rest);
            lemma_parse_enc_list(l, rest);
        },
        (Kind::TextFilter, Field::TextFilter(t, c)) => {
            lemma_le64(t as int);
            assert(b.take(8) =~= le64(t as int));
            if t < 2 {
                assert(b.skip(8) =~= enc_text(c) + rest);
                lemma_parse_enc_text(c, rest);
            } else {
                assert(c =~= Seq::<char>::empty());
            }
        },
        (Kind::BytesFilter, Field::BytesFilter(t, v)) => {
            lemma_le64(t as int);
            assert(b.take(8) =~= le64(t as int));
            if t < 2 {
                assert(b.skip(8) =~= enc_bytes(v) + rest);
                lemma_parse_enc_bytes(v, rest);
            } else {
                assert(v =~= Seq::<u8>::empty());
            }
        },
        _ => {},
    }
}

/// Fitting values read back as themselves, whatever follows them.
pub proof fn lemma_parse_enc_fields(ks: Seq<Kind>, fs: Seq<Field>, rest: Seq<u8>)
    requires
        fields_fit(ks, fs),
    ensures
        parse_fields(enc_fields(ks, fs) + rest, ks) == Some((fs, enc_fields(ks, fs).len() as int)),
    decreases ks.len(),
{
    if ks.len() > 0 {
        let r2 = enc_fields(ks.drop_first(), fs.drop_first()) + rest;
        assert(enc_fields(ks, fs) + rest =~= enc_field(ks[0], fs[0]) + r2);
        assert(field_fits(ks[0], fs[0]));
        lemma_parse_enc_field(ks[0], fs[0], r2);
        assert(fields_fit(ks.drop_first(), fs.drop_first())) by {
            assert forall|i: int| 0 <= i < ks.drop_first().len() implies field_fits(
                ks.drop_first()[i],
                #[trigger] fs.drop_first()[i],
            ) by {
                assert(field_fits(ks[i + 1], fs[i + 1]));
            }
        }
        lemma_parse_enc_fields(ks.drop_first(), fs.drop_first(), rest);
        assert((enc_fields(ks, fs) + rest).skip(enc_field(ks[0], fs[0]).len() as int) =~= r2);
        assert(seq![fs[0]] + fs.drop_first() =~= fs);
    } else {
        assert(fs =~= Seq::<Field>::empty());
    }
}

/// The kinds of a message's values, by variant index `t` and, for the two
/// messages that are themselves enums, inner variant index `u`.
pub open spec fn shape(t: nat, u: nat) -> Option<Seq<Kind>> {
    if t == 0 {
        if u == 0 {
            Some(seq![Kind::Text, Kind::Bytes, Kind::Text, Kind::Bytes, Kind::Flag, Kind::Text])
        } else if u == 1 {
            Some(seq![Kind::USize])
        } else {
            None
        }
    } else if t == 1 {
        if u == 0 {
            Some(seq![Kind::Flag, Kind::USize])
        } else if u == 1 {
            Some(seq![Kind::U16])
        } else {
            None
        }
    } else if t == 2 || t == 14 {
        Some(seq![Kind::USize])
    } else if t == 3 {
        Some(seq![Kind::USize, Kind::TextFilter, Kind::TextFilter, Kind::BytesFilter])
    } else if t == 4 {
        Some(seq![Kind::USize, Kind::Adresses])
    } else if t == 5 {
        Some(seq![Kind::Flag, Kind::Text, Kind::Text, Kind::Bytes, Kind::Bytes])
    } else if t == 6 {
        Some(seq![Kind::Bytes, Kind::USize])
    } else if t == 7 || t == 8 {
        Some(seq![Kind::USize, Kind::Bytes, Kind::Text])
    } else if t == 9 || t == 10 {
        Some(seq![Kind::USize, Kind::Bytes, Kind::Flag, Kind::Text])
    } else if t == 11 {
        Some(seq![Kind::USize, Kind::Bytes, Kind::Flag, Kind::U128])
    } else if t == 12 {
        Some(seq![Kind::USize, Kind::Bytes, Kind::Flag])
    } else if t == 13 {
        Some(seq![Kind::USize, Kind::Text, Kind::U16, Kind::Bytes, Kind::U128])
    } else {
        None
    }
}

pub open spec fn text_filter_field(f: SearchType<String>) -> Field {
    match f {
        SearchType::Fuzzy(x) => Field::TextFilter(0, x@),
        SearchType::Exact(x) => Field::TextFilter(1, x@),
        SearchType::Any => Field::TextFilter(2, Seq::empty()),
    }
}

pub open spec fn bytes_filter_field(f: SearchType<Vec<u8>>) -> Field {
    match f {
        SearchType::Fuzzy(x) => Field::BytesFilter(0, x@),
        SearchType::Exact(x) => Field::BytesFilter(1, x@),
        SearchType::Any => Field::BytesFilter(2, Seq::empty()),
    }
}

/// A message as its variant indices and its values.
pub open spec fn packet_view(p: Packets) -> (nat, nat, Seq<Field>) {
    match p {
        Packets::Register(Register::Client { client, public, name, other, privacy, private_adress }) => (
            0,
            0,
            seq![
                Field::Text(client@),
                Field::Bytes(public@),
                Field::Text(name@),
                Field::Bytes(other@),
                Field::Flag(privacy),
                Field::Text(private_adress@),
            ],
        ),
        Packets::Register(Register::Port { session }) => (0, 1, seq![Field::Num(session as int)]),
        Packets::RegisterResponse(RegisterResponse::Client { accepted, session }) => (
            1,
            0,
            seq![Field::Flag(accepted), Field::Num(session as int)],
        ),
        Packets::RegisterResponse(RegisterResponse::Port { port }) => (1, 1, seq![Field::Num(port as int)]),
        Packets::UnRegister(x) => (2, 0, seq![Field::Num(x.session as int)]),
        Packets::Search(x) => (
            3,
            0,
            seq![
                Field::Num(x.session as int),
                text_filter_field(x.client),
                text_filter_field(x.name),
                bytes_filter_field(x.other),
            ],
        ),
        Packets::SearchResponse(x) => (
            4,
            0,
            seq![Field::Num(x.session as int), Field::Adresses(adresses_view(x.adresses@))],
        ),
        Packets::Info(x) => (
            5,
            0,
            seq![
                Field::Flag(x.has),
                Field::Text(x.name@),
                Field::Text(x.client@),
                Field::Bytes(x.other@),
                Field::Bytes(x.adress@),
            ],
        ),
        Packets::InfoRequest(x) => (6, 0, seq![Field::Bytes(x.adress@), Field::Num(x.session as int)]),
        Packets::Request(x) => (
            7,
            0,
            seq![Field::Num(x.session as int), Field::Bytes(x.to@), Field::Text(x.secret@)],
        ),
        Packets::NewRequest(x) => (
            8,
            0,
            seq![Field::Num(x.session as int), Field::Bytes(x.from@), Field::Text(x.secret@)],
        ),
        Packets::RequestResponse(x) => (
            9,
            0,
            seq![
                Field::Num(x.session as int),
                Field::Bytes(x.to@),
                Field::Flag(x.accepted),
                Field::Text(x.secret@),
            ],
        ),
        Packets::NewRequestResponse(x) => (
            10,
            0,
            seq![
                Field::Num(x.session as int),
                Field::Bytes(x.from@),
                Field::Flag(x.accepted),
                Field::Text(x.secret@),
            ],
        ),
        Packets::RequestFinal(x) => (
            11,
            0,
            seq![
                Field::Num(x.session as int),
                Field::Bytes(x.to@),
                Field::Flag(x.accepted),
                Field::Num(x.time_offset as int),
            ],
        ),
        Packets::NewRequestFinal(x) => (
            12,
            0,
            seq![Field::Num(x.session as int), Field::Bytes(x.from@), Field::Flag(x.accepted)],
        ),
        Packets::ConnectOn(x) => (
            13,
            0,
            seq![
                Field::Num(x.session as int),
                Field::Text(x.to@),
                Field::Num(x.port as int),
                Field::Bytes(x.adress@),
                Field::Num(x.time as int),
            ],
        ),
        Packets::Tick { session } => (14, 0, seq![Field::Num(session as int)]),
    }
}

/// The variant indices that open a message.
pub open spec fn head(t: nat, u: nat) -> Seq<u8> {
    le64(t as int) + if t < 2 {
        le64(u as int)
    } else {
        Seq::empty()
    }
}

/// The bytes of a message (before the reversal of the wire).
pub open spec fn wire(p: Packets) -> Seq<u8> {
    let (t, u, fs) = packet_view(p);
    head(t, u) + enc_fields(shape(t, u).unwrap(), fs)
}

/// The message at the start of `b`, as indices and values.
pub open spec fn parse_packet(b: Seq<u8>) -> Option<(nat, nat, Seq<Field>)> {
    if b.len() < 8 {
        None
    } else {
        let t = spec_u64_from_le_bytes(b.take(8)) as nat;
        let u: nat = if t < 2 && b.len() >= 16 {
            spec_u64_from_le_bytes(b.subrange(8, 16)) as nat
        } else {
            0
        };
        let start: int = if t < 2 { 16 } else { 8 };
        if b.len() < start {
            None
        } else {
            match shape(t, u) {
                Some(ks) => match parse_fields(b.skip(start), ks) {
                    Some((fs, _)) => Some((t, u, fs)),
                    None => None,
                },
                None => None,
            }
        }
    }
}

/// Every text of the message is ASCII and every length fits the machine.
pub open spec fn fits_wire(p: Packets) -> bool {
    let (t, u, fs) = packet_view(p);
    fields_fit(shape(t, u).unwrap(), fs)
}

/// Every message reads back from its own bytes, whatever follows them.
pub proof fn lemma_parse_wire(p: Packets, rest: Seq<u8>)
    requires
        fits_wire(p),
    ensures
        parse_packet(wire(p) + rest) == Some(packet_view(p)),
{
    let (t, u, fs) = packet_view(p);
    let ks = shape(t, u).unwrap();
    let b = wire(p) + rest;
    lemma_le64(t as int);
    lemma_le64(u as int);
    let start: int = if t < 2 { 16 } else { 8 };
    assert(b.take(8) =~= le64(t as int));
    if t < 2 {
        assert(b.subrange(8, 16) =~= le64(u as int));
    }
    assert(b.skip(start) =~= enc_fields(ks, fs) + rest);
    lemma_parse_enc_fields(ks, fs, rest);
}

/// Re-encoding what was read from a message's bytes gives those bytes again
/// (for a message whose text is ASCII: other text reads back as one
/// character per byte).
pub proof fn lemma_round_trip(p: Packets, q: Packets)
    requires
        fits_wire(p),
        parse_packet(wire(p)) == Some(packet_view(q)),
    ensures
        wire(q) == wire(p),
{
    lemma_parse_wire(p, Seq::empty());
    assert(wire(p) + Seq::<u8>::empty() =~= wire(p));
}

/// A value of a message, held by the machine.
pub enum Val {
    U16(u16),
    USize(usize),
    U128(u128),
    Flag(bool),
    Bytes(Vec<u8>),
    Text(String),
    Adresses(Vec<Adress>),
    TextFilter(SearchType<String>),
    BytesFilter(SearchType<Vec<u8>>),
}

pub open spec fn val_field(v: Val) -> Field {
    match v {
        Val::U16(x) => Field::Num(x as int),
        Val::USize(x) => Field::Num(x as int),
        Val::U128(x) => Field::Num(x as int),
        Val::Flag(b) => Field::Flag(b),
        Val::Bytes(x) => Field::Bytes(x@),
        Val::Text(x) => Field::Text(x@),
        Val::Adresses(x) => Field::Adresses(adresses_view(x@)),
        Val::TextFilter(f) => text_filter_field(f),
        Val::BytesFilter(f) => bytes_filter_field(f),
    }
}

pub open spec fn val_kind(k: Kind, v: Val) -> bool {
    match (k, v) {
        (Kind::U16, Val::U16(_)) => true,
        (Kind::USize, Val::USize(_)) => true,
        (Kind::U128, Val::U128(_)) => true,
        (Kind::Flag, Val::Flag(_)) => true,
        (Kind::Bytes, Val::Bytes(_)) => true,
        (Kind::Text, Val::Text(_)) => true,
        (Kind::Adresses, Val::Adresses(_)) => true,
        (Kind::TextFilter, Val::TextFilter(_)) => true,
        (Kind::BytesFilter, Val::BytesFilter(_)) => true,
        _ => false,
    }
}

pub open spec fn vals_view(vs: Seq<Val>) -> Seq<Field> {
    vs.map_values(|v: Val| val_field(v))
}

pub open spec fn vals_kinds(ks: Seq<Kind>, vs: Seq<Val>) -> bool {
    ks.len() == vs.len() && forall|i: int| 0 <= i < ks.len() ==> val_kind(ks[i], #[trigger] vs[i])
}

/// Relies on bytes-kman's `TBytes::to_bytes` for u16: its little-endian bytes.
#[verifier::external_body]
fn kman_u16(v: u16) -> (r: Vec<u8>)
    ensures
        r@ == spec_u16_to_le_bytes(v),
{
    v.to_bytes()
}

/// Relies on bytes-kman's `TBytes::to_bytes` for u64: its little-endian bytes.
#[verifier::external_body]
fn kman_u64(v: u64) -> (r: Vec<u8>)
    ensures
        r@ == spec_u64_to_le_bytes(v),
{
    v.to_bytes()
}

/// Relies on bytes-kman's `TBytes::to_bytes` for u128: its little-endian bytes.
#[verifier::external_body]
fn kman_u128(v: u128) -> (r: Vec<u8>)
    ensures
        r@ == spec_u128_to_le_bytes(v),
{
    v.to_bytes()
}

/// Relies on bytes-kman's `TBytes::to_bytes` for bool: one byte, 1 or 0.
#[verifier::external_body]
fn kman_bool(v: bool) -> (r: Vec<u8>)
    ensures
        r@ == seq![if v { 1u8 } else { 0u8 }],
{
    v.to_bytes()
}

/// Relies on bytes-kman's `TBytes::from_bytes_ref` for String: a length
/// (8 little-endian bytes), then that many bytes, each read as one
/// character; nothing when the bytes run short.
#[verifier::external_body]
fn kman_text(b: &[u8]) -> (r: Option<String>)
    ensures
        match parse_text(b@) {
            Some((c, _)) => r matches Some(s) && s@ == c,
            None => r is None,
        },
{
    String::from_bytes_ref(b)
}

fn put_len(out: &mut Vec<u8>, n: usize)
    ensures
        final(out)@ == old(out)@ + le64(n as int),
{
    let mut b = kman_u64(n as u64);
    out.append(&mut b);
}

fn put_bytes(out: &mut Vec<u8>, v: &[u8])
    ensures
        final(out)@ == old(out)@ + enc_bytes(v@),
{
    put_len(out, v.len());
    let mut c = slice_to_vec(v);
    out.append(&mut c);
    assert(final(out)@ =~= old(out)@ + enc_bytes(v@));
}

fn put_text(out: &mut Vec<u8>, s: &String)
    ensures
        final(out)@ == old(out)@ + enc_text(s@),
{
    put_bytes(out, s.as_str().as_bytes());
}

/// Appends the bytes of one value.
pub fn put_val(out: &mut Vec<u8>, k: Kind, v: &Val)
    requires
        val_kind(k, *v),
    ensures
        final(out)@ == old(out)@ + enc_field(k, val_field(*v)),
{
    match v {
        Val::U16(x) => {
            let mut b = kman_u16(*x);
            out.append(&mut b);
        },
        Val::USize(x) => put_len(out, *x),
        Val::U128(x) => {
            let mut b = kman_u128(*x);
            out.append(&mut b);
        },
        Val::Flag(x) => {
            let mut b = kman_bool(*x);
            out.append(&mut b);
        },
        Val::Bytes(x) => put_bytes(out, x.as_slice()),
        Val::Text(x) => put_text(out, x),
        Val::Adresses(l) => {
            let ghost o = out@;
            put_len(out, l.len());
            let mut i: usize = 0;
            while i < l.len()
                invariant
                    i <= l@.len(),
                    out@ == o + le64(l@.len() as int) + enc_list(adresses_view(l@.subrange(0, i as int))),
                decreases l@.len() - i,
            {
                put_bytes(out, l[i].as_slice());
                proof {
                    let sub = adresses_view(l@.subrange(0, i + 1));
                    assert(sub.drop_last() =~= adresses_view(l@.subrange(0, i as int)));
                    assert(sub.last() == l@[i as int]@);
                }
                i += 1;
                assert(out@ =~= o + le64(l@.len() as int) + enc_list(adresses_view(l@.subrange(0, i as int))));
            }
            assert(l@.subrange(0, l@.len() as int) =~= l@);
            assert(adresses_view(l@).len() == l@.len());
            assert(out@ =~= o + enc_field(k, val_field(*v)));
        },
        Val::TextFilter(f) => match f {
            SearchType::Fuzzy(x) => {
                put_len(out, 0);
                put_text(out, x);
                assert(final(out)@ =~= old(out)@ + enc_field(k, val_field(*v)));
            },
            SearchType::Exact(x) => {
                put_len(out, 1);
                put_text(out, x);
                assert(final(out)@ =~= old(out)@ + enc_field(k, val_field(*v)));
            },
            SearchType::Any => {
                put_len(out, 2);
                assert(final(out)@ =~= old(out)@ + enc_field(k, val_field(*v)));
            },
        },
        Val::BytesFilter(f) => match f {
            SearchType::Fuzzy(x) => {
                put_len(out, 0);
                put_bytes(out, x.as_slice());
                assert(final(out)@ =~= old(out)@ + enc_field(k, val_field(*v)));
            },
            SearchType::Exact(x) => {
                put_len(out, 1);
                put_bytes(out, x.as_slice());
                assert(final(out)@ =~= old(out)@ + enc_field(k, val_field(*v)));
            },
            SearchType::Any => {
                put_len(out, 2);
                assert(final(out)@ =~= old(out)@ + enc_field(k, val_field(*v)));
            },
        },
    }
}

/// The 8-byte little-endian integer at `pos`, if the bytes reach that far.
fn read_u64(b: &[u8], pos: usize) -> (r: Option<u64>)
    requires
        pos <= b@.len(),
    ensures
        b@.skip(pos as int).len() < 8 ==> r is None,
        b@.skip(pos as int).len() >= 8 ==> r == Some(spec_u64_from_le_bytes(b@.skip(pos as int).take(8))),
        r is Some ==> pos + 8 <= b@.len() <= usize::MAX,
{
    if b.len() - pos < 8 {
        return None;
    }
    let s = slice_subrange(b, pos, pos + 8);
    assert(s@ =~= b@.skip(pos as int).take(8));
    Some(u64_from_le_bytes(s))
}

/// The byte string at `pos` and where it ends.
fn read_bytes(b: &[u8], pos: usize) -> (r: Option<(Vec<u8>, usize)>)
    requires
        pos <= b@.len(),
    ensures
        match parse_bytes(b@.skip(pos as int)) {
            Some((v, n)) => r matches Some((x, e)) && x@ == v && e == pos + n,
            None => r is None,
        },
{
    let n = match read_u64(b, pos) {
        Some(n) => n,
        None => return None,
    };
    if n > usize::MAX as u64 {
        return None;
    }
    let n = n as usize;
    if b.len() - pos - 8 < n {
        return None;
    }
    let e = pos + 8 + n;
    let x = slice_to_vec(slice_subrange(b, pos + 8, e));
    assert(x@ =~= b@.skip(pos as int).subrange(8, 8 + n as int));
    Some((x, e))
}

/// Bytes parse past `i` items only if they parse past `i`.
proof fn lemma_list_none(b: Seq<u8>, i: nat, n: nat)
    requires
        parse_list(b, i) is None,
        i <= n,
    ensures
        parse_list(b, n) is None,
    decreases n - i,
{
    if i < n {
        lemma_list_none(b, i, (n - 1) as nat);
    }
}

/// The value of kind `k` at `pos`, and where it ends.
pub fn read_val(b: &[u8], pos: usize, k: Kind) -> (r: Option<(Val, usize)>)
    requires
        pos <= b@.len(),
    ensures
        match parse_field(b@.skip(pos as int), k) {
            Some((f, n)) => r matches Some((v, e)) && val_field(v) == f && e == pos + n && val_kind(k, v),
            None => r is None,
        },
{
    let ghost bs = b@.skip(pos as int);
    match k {
        Kind::U16 => {
            if b.len() - pos < 2 {
                return None;
            }
            let s = slice_subrange(b, pos, pos + 2);
            assert(s@ =~= bs.take(2));
            Some((Val::U16(u16_from_le_bytes(s)), pos + 2))
        },
        Kind::USize => {
            match read_u64(b, pos) {
                Some(v) => if v <= usize::MAX as u64 {
                    Some((Val::USize(v as usize), pos + 8))
                } else {
                    None
                },
                None => None,
            }
        },
        Kind::U128 => {
            if b.len() - pos < 16 {
                return None;
            }
            let s = slice_subrange(b, pos, pos + 16);
            assert(s@ =~= bs.take(16));
            Some((Val::U128(u128_from_le_bytes(s)), pos + 16))
        },
        Kind::Flag => {
            if b.len() - pos < 1 {
                return None;
            }
            Some((Val::Flag(b[pos] != 0), pos + 1))
        },
        Kind::Bytes => match read_bytes(b, pos) {
            Some((x, e)) => Some((Val::Bytes(x), e)),
            None => None,
        },
        Kind::Text => match read_text(b, pos) {
            Some((x, e)) => Some((Val::Text(x), e)),
            None => None,
        },
        Kind::Adresses => {
            let n = match read_u64(b, pos) {
                Some(n) => n,
                None => return None,
            };
            if n > usize::MAX as u64 {
                return None;
            }
            let n = n as usize;
            let ghost b8 = bs.skip(8);
            let mut l: Vec<Adress> = Vec::new();
            let mut cur = pos + 8;
            let mut i: usize = 0;
            while i < n
                invariant
                    pos + 8 <= cur <= b@.len(),
                    bs == b@.skip(pos as int),
                    b8 == bs.skip(8),
                    bs.len() >= 8,
                    k == Kind::Adresses,
                    n as int == spec_u64_from_le_bytes(bs.take(8)) as int,
                    i <= n,
                    parse_list(b8, i as nat) == Some((adresses_view(l@), cur - pos - 8)),
                decreases n - i,
            {
                proof {
                    assert(b8.skip(cur - pos - 8) =~= b@.skip(cur as int));
                }
                match read_bytes(b, cur) {
                    Some((x, e)) => {
                        let ghost before = l@;
                        l.push(x);
                        assert(adresses_view(l@) =~= adresses_view(before).push(x@));
                        cur = e;
                    },
                    None => {
                        proof {
                            assert(parse_list(b8, (i + 1) as nat) is None);
                            lemma_list_none(b8, (i + 1) as nat, n as nat);
                            assert(bs.len() >= 8);
                            assert(spec_u64_from_le_bytes(bs.take(8)) as nat == n as nat);
                            assert(parse_list(b8, n as nat) is None);
                            assert(parse_list(bs.skip(8), spec_u64_from_le_bytes(bs.take(8)) as nat) is None);

                        }
                        return None;
                    },
                }
                i += 1;
            }
            Some((Val::Adresses(l), cur))
        },
        Kind::TextFilter => {
            let t = match read_u64(b, pos) {
                Some(t) => t,
                None => return None,
            };
            proof {
                assert(bs.skip(8) =~= b@.skip(pos + 8));
            }
            if t == 0 || t == 1 {
                match read_text(b, pos + 8) {
                    Some((x, e)) => if t == 0 {
                        Some((Val::TextFilter(SearchType::Fuzzy(x)), e))
                    } else {
                        Some((Val::TextFilter(SearchType::Exact(x)), e))
                    },
                    None => None,
                }
            } else if t == 2 {
                Some((Val::TextFilter(SearchType::Any), pos + 8))
            } else {
                None
            }
        },
        Kind::BytesFilter => {
            let t = match read_u64(b, pos) {
                Some(t) => t,
                None => return None,
            };
            proof {
                assert(bs.skip(8) =~= b@.skip(pos + 8));
            }
            if t == 0 || t == 1 {
                match read_bytes(b, pos + 8) {
                    Some((x, e)) => if t == 0 {
                        Some((Val::BytesFilter(SearchType::Fuzzy(x)), e))
                    } else {
                        Some((Val::BytesFilter(SearchType::Exact(x)), e))
                    },
                    None => None,
                }
            } else if t == 2 {
                Some((Val::BytesFilter(SearchType::Any), pos + 8))
            } else {
                None
            }
        },
    }
}

/// The text at `pos` and where it ends.
fn read_text(b: &[u8], pos: usize) -> (r: Option<(String, usize)>)
    requires
        pos <= b@.len(),
    ensures
        match parse_text(b@.skip(pos as int)) {
            Some((c, n)) => r matches Some((x, e)) && x@ == c && e == pos + n,
            None => r is None,
        },
{
    let e = match read_bytes(b, pos) {
        Some((_, e)) => e,
        None => return None,
    };
    let rest = slice_subrange(b, pos, b.len());
    assert(rest@ =~= b@.skip(pos as int));
    match kman_text(rest) {
        Some(s) => Some((s, e)),
        None => None,
    }
}

/// Appends the bytes of several values.
pub fn put_vals(out: &mut Vec<u8>, ks: &Vec<Kind>, vs: &Vec<Val>)
    requires
        vals_kinds(ks@, vs@),
    ensures
        final(out)@ == old(out)@ + enc_fields(ks@, vals_view(vs@)),
{
    let ghost fs = vals_view(vs@);
    let ghost o = out@;
    let mut i: usize = 0;
    proof {
        assert(ks@.skip(0) =~= ks@);
        assert(fs.skip(0) =~= fs);
        assert(o =~= o + Seq::<u8>::empty());
    }
    while i < ks.len()
        invariant
            vals_kinds(ks@, vs@),
            fs == vals_view(vs@),
            i <= ks@.len(),
            o + enc_fields(ks@, fs) == out@ + enc_fields(ks@.skip(i as int), fs.skip(i as int)),
        decreases ks@.len() - i,
    {
        let ghost before = out@;
        assert(val_kind(ks@[i as int], vs@[i as int]));
        put_val(out, ks[i], &vs[i]);
        proof {
            assert(ks@.skip(i as int).drop_first() =~= ks@.skip(i + 1));
            assert(fs.skip(i as int).drop_first() =~= fs.skip(i + 1));
            assert(ks@.skip(i as int)[0] == ks@[i as int]);
            assert(fs.skip(i as int)[0] == val_field(vs@[i as int]));
        }
        i += 1;
    }
    proof {
        assert(o + enc_fields(ks@, fs) =~= out@);
    }
}

/// `fs1` (taking `n1` bytes) followed by what `r` read.
pub open spec fn glue(fs1: Seq<Field>, n1: int, r: Option<(Seq<Field>, int)>) -> Option<(Seq<Field>, int)> {
    match r {
        Some((fs2, n2)) => Some((fs1 + fs2, n1 + n2)),
        None => None,
    }
}

proof fn lemma_parse_list_len(b: Seq<u8>, n: nat)
    ensures
        parse_list(b, n) matches Some((_, m)) ==> 0 <= m <= b.len(),
    decreases n,
{
    if n > 0 {
        lemma_parse_list_len(b, (n - 1) as nat);
    }
}

/// A value never takes more bytes than there are.
pub proof fn lemma_parse_field_len(b: Seq<u8>, k: Kind)
    ensures
        parse_field(b, k) matches Some((_, n)) ==> 0 <= n <= b.len(),
{
    if k == Kind::Adresses && b.len() >= 8 {
        lemma_parse_list_len(b.skip(8), spec_u64_from_le_bytes(b.take(8)) as nat);
    }
}

/// The values of kinds `ks` from `pos` on, and where they end.
pub fn read_fields(b: &[u8], pos: usize, ks: &Vec<Kind>) -> (r: Option<(Vec<Val>, usize)>)
    requires
        pos <= b@.len(),
    ensures
        match parse_fields(b@.skip(pos as int), ks@) {
            Some((fs, n)) => r matches Some((vs, e)) && vals_view(vs@) == fs && e == pos + n
                && vals_kinds(ks@, vs@),
            None => r is None,
        },
{
    let mut vs: Vec<Val> = Vec::new();
    let mut cur = pos;
    let mut i: usize = 0;
    proof {
        assert(ks@.skip(0) =~= ks@);
        let r = parse_fields(b@.skip(pos as int), ks@);
        if r is Some {
            assert(Seq::<Field>::empty() + r.unwrap().0 =~= r.unwrap().0);
        }
    }
    while i < ks.len()
        invariant
            pos <= cur <= b@.len(),
            i <= ks@.len(),
            vs@.len() == i,
            forall|j: int| 0 <= j < i ==> val_kind(ks@[j], #[trigger] vs@[j]),
            parse_fields(b@.skip(pos as int), ks@) == glue(
                vals_view(vs@),
                cur - pos,
                parse_fields(b@.skip(cur as int), ks@.skip(i as int)),
            ),
        decreases ks@.len() - i,
    {
        let ghost rest = ks@.skip(i as int);
        proof {
            assert(rest[0] == ks@[i as int]);
            assert(rest.drop_first() =~= ks@.skip(i + 1));
        }
        proof {
            lemma_parse_field_len(b@.skip(cur as int), ks@[i as int]);
        }
        match read_val(b, cur, ks[i]) {
            Some((v, e)) => {
                proof {
                    assert(b@.skip(cur as int).skip(e - cur) =~= b@.skip(e as int));
                    let tail = parse_fields(b@.skip(e as int), ks@.skip(i + 1));
                    if tail is Some {
                        assert(vals_view(vs@) + (seq![val_field(v)] + tail.unwrap().0) =~= vals_view(
                            vs@.push(v),
                        ) + tail.unwrap().0);
                    }
                }
                vs.push(v);
                cur = e;
            },
            None => {
                return None;
            },
        }
        i += 1;
    }
    proof {
        assert(vals_view(vs@) + Seq::<Field>::empty() =~= vals_view(vs@));
    }
    Some((vs, cur))
}

/// The kinds of the values of variant (t, u).
pub fn shape_vec(t: u64, u: u64) -> (r: Option<Vec<Kind>>)
    ensures
        match shape(t as nat, u as nat) {
            Some(ks) => r matches Some(v) && v@ == ks,
            None => r is None,
        },
{
    let r = if t == 0 {
        if u == 0 {
            Some(vec![Kind::Text, Kind::Bytes, Kind::Text, Kind::Bytes, Kind::Flag, Kind::Text])
        } else if u == 1 {
            Some(vec![Kind::USize])
        } else {
            None
        }
    } else if t == 1 {
        if u == 0 {
            Some(vec![Kind::Flag, Kind::USize])
        } else if u == 1 {
            Some(vec![Kind::U16])
        } else {
            None
        }
    } else if t == 2 || t == 14 {
        Some(vec![Kind::USize])
    } else if t == 3 {
        Some(vec![Kind::USize, Kind::TextFilter, Kind::TextFilter, Kind::BytesFilter])
    } else if t == 4 {
        Some(vec![Kind::USize, Kind::Adresses])
    } else if t == 5 {
        Some(vec![Kind::Flag, Kind::Text, Kind::Text, Kind::Bytes, Kind::Bytes])
    } else if t == 6 {
        Some(vec![Kind::Bytes, Kind::USize])
    } else if t == 7 || t == 8 {
        Some(vec![Kind::USize, Kind::Bytes, Kind::Text])
    } else if t == 9 || t == 10 {
        Some(vec![Kind::USize, Kind::Bytes, Kind::Flag, Kind::Text])
    } else if t == 11 {
        Some(vec![Kind::USize, Kind::Bytes, Kind::Flag, Kind::U128])
    } else if t == 12 {
        Some(vec![Kind::USize, Kind::Bytes, Kind::Flag])
    } else if t == 13 {
        Some(vec![Kind::USize, Kind::Text, Kind::U16, Kind::Bytes, Kind::U128])
    } else {
        None
    };
    proof {
        match shape(t as nat, u as nat) {
            Some(ks) => assert(r.unwrap()@ =~= ks),
            None => {},
        }
    }
    r
}

/// A message as its variant indices and values.
pub fn to_vals(p: Packets) -> (r: (u64, u64, Vec<Val>))
    ensures
        packet_view(p) == (r.0 as nat, r.1 as nat, vals_view(r.2@)),
        shape(r.0 as nat, r.1 as nat) matches Some(ks) && vals_kinds(ks, r.2@),
{
    let ghost gp = p;
    let r: (u64, u64, Vec<Val>) = match p {
        Packets::Register(Register::Client { client, public, name, other, privacy, private_adress }) => (
            0,
            0,
            vec![
                Val::Text(client),
                Val::Bytes(public),
                Val::Text(name),
                Val::Bytes(other),
                Val::Flag(privacy),
                Val::Text(private_adress),
            ],
        ),
        Packets::Register(Register::Port { session }) => (0, 1, vec![Val::USize(session)]),
        Packets::RegisterResponse(RegisterResponse::Client { accepted, session }) => (
            1,
            0,
            vec![Val::Flag(accepted), Val::USize(session)],
        ),
        Packets::RegisterResponse(RegisterResponse::Port { port }) => (1, 1, vec![Val::U16(port)]),
        Packets::UnRegister(x) => (2, 0, vec![Val::USize(x.session)]),
        Packets::Search(x) => (
            3,
            0,
            vec![
                Val::USize(x.session),
                Val::TextFilter(x.client),
                Val::TextFilter(x.name),
                Val::BytesFilter(x.other),
            ],
        ),
        Packets::SearchResponse(x) => (4, 0, vec![Val::USize(x.session), Val::Adresses(x.adresses)]),
        Packets::Info(x) => (
            5,
            0,
            vec![
                Val::Flag(x.has),
                Val::Text(x.name),
                Val::Text(x.client),
                Val::Bytes(x.other),
                Val::Bytes(x.adress),
            ],
        ),
        Packets::InfoRequest(x) => (6, 0, vec![Val::Bytes(x.adress), Val::USize(x.session)]),
        Packets::Request(x) => (7, 0, vec![Val::USize(x.session), Val::Bytes(x.to), Val::Text(x.secret)]),
        Packets::NewRequest(x) => (
            8,
            0,
            vec![Val::USize(x.session), Val::Bytes(x.from), Val::Text(x.secret)],
        ),
        Packets::RequestResponse(x) => (
            9,
            0,
            vec![Val::USize(x.session), Val::Bytes(x.to), Val::Flag(x.accepted), Val::Text(x.secret)],
        ),
        Packets::NewRequestResponse(x) => (
            10,
            0,
            vec![
                Val::USize(x.session),
                Val::Bytes(x.from),
                Val::Flag(x.accepted),
                Val::Text(x.secret),
            ],
        ),
        Packets::RequestFinal(x) => (
            11,
            0,
            vec![
                Val::USize(x.session),
                Val::Bytes(x.to),
                Val::Flag(x.accepted),
                Val::U128(x.time_offset),
            ],
        ),
        Packets::NewRequestFinal(x) => (
            12,
            0,
            vec![Val::USize(x.session), Val::Bytes(x.from), Val::Flag(x.accepted)],
        ),
        Packets::ConnectOn(x) => (
            13,
            0,
            vec![
                Val::USize(x.session),
                Val::Text(x.to),
                Val::U16(x.port),
                Val::Bytes(x.adress),
                Val::U128(x.time),
            ],
        ),
        Packets::Tick { session } => (14, 0, vec![Val::USize(session)]),
    };
    proof {
        assert(vals_view(r.2@) =~= packet_view(gp).2);
    }
    r
}

/// The message of variant (t, u) with values `vs`.
pub fn from_vals(t: u64, u: u64, vs: Vec<Val>) -> (r: Option<Packets>)
    requires
        shape(t as nat, u as nat) matches Some(ks) && vals_kinds(ks, vs@),
        t >= 2 ==> u == 0,
    ensures
        r matches Some(p) && packet_view(p) == (t as nat, u as nat, vals_view(vs@)),
{
    let ghost g = vs@;
    let mut vs = vs;
    let n = vs.len();
    let f5 = if n > 5 { vs.pop() } else { None };
    let f4 = if n > 4 { vs.pop() } else { None };
    let f3 = if n > 3 { vs.pop() } else { None };
    let f2 = if n > 2 { vs.pop() } else { None };
    let f1 = if n > 1 { vs.pop() } else { None };
    let f0 = vs.pop();
    proof {
        let ks = shape(t as nat, u as nat).unwrap();
        assert(1 <= ks.len() <= 6);
        assert(f0 == Some(g[0]));
        assert(n > 1 ==> f1 == Some(g[1]));
        assert(n > 2 ==> f2 == Some(g[2]));
        assert(n > 3 ==> f3 == Some(g[3]));
        assert(n > 4 ==> f4 == Some(g[4]));
        assert(n > 5 ==> f5 == Some(g[5]));
        assert(forall|i: int| 0 <= i < ks.len() ==> val_kind(ks[i], #[trigger] g[i]));
        if t == 0 && u == 0 {
            assert(ks =~= seq![Kind::Text, Kind::Bytes, Kind::Text, Kind::Bytes, Kind::Flag, Kind::Text]);
            assert(n == 6 && g[0] is Text && g[1] is Bytes && g[2] is Text && g[3] is Bytes && g[4] is Flag && g[5] is Text);
        }
        if t == 0 && u == 1 {
            assert(ks =~= seq![Kind::USize]);
            assert(n == 1 && g[0] is USize);
        }
        if t == 1 && u == 0 {
            assert(ks =~= seq![Kind::Flag, Kind::USize]);
            assert(n == 2 && g[0] is Flag && g[1] is USize);
        }
        if t == 1 && u == 1 {
            assert(ks =~= seq![Kind::U16]);
            assert(n == 1 && g[0] is U16);
        }
        if t == 2 || t == 14 {
            assert(ks =~= seq![Kind::USize]);
            assert(n == 1 && g[0] is USize);
        }
        if t == 3 {
            assert(ks =~= seq![Kind::USize, Kind::TextFilter, Kind::TextFilter, Kind::BytesFilter]);
            assert(n == 4 && g[0] is USize && g[1] is TextFilter && g[2] is TextFilter && g[3] is BytesFilter);
        }
        if t == 4 {
            assert(ks =~= seq![Kind::USize, Kind::Adresses]);
            assert(n == 2 && g[0] is USize && g[1] is Adresses);
        }
        if t == 5 {
            assert(ks =~= seq![Kind::Flag, Kind::Text, Kind::Text, Kind::Bytes, Kind::Bytes]);
            assert(n == 5 && g[0] is Flag && g[1] is Text && g[2] is Text && g[3] is Bytes && g[4] is Bytes);
        }
        if t == 6 {
            assert(ks =~= seq![Kind::Bytes, Kind::USize]);
            assert(n == 2 && g[0] is Bytes && g[1] is USize);
        }
        if t == 7 || t == 8 {
            assert(ks =~= seq![Kind::USize, Kind::Bytes, Kind::Text]);
            assert(n == 3 && g[0] is USize && g[1] is Bytes && g[2] is Text);
        }
        if t == 9 || t == 10 {
            assert(ks =~= seq![Kind::USize, Kind::Bytes, Kind::Flag, Kind::Text]);
            assert(n == 4 && g[0] is USize && g[1] is Bytes && g[2] is Flag && g[3] is Text);
        }
        if t == 11 {
            assert(ks =~= seq![Kind::USize, Kind::Bytes, Kind::Flag, Kind::U128]);
            assert(n == 4 && g[0] is USize && g[1] is Bytes && g[2] is Flag && g[3] is U128);
        }
        if t == 12 {
            assert(ks =~= seq![Kind::USize, Kind::Bytes, Kind::Flag]);
            assert(n == 3 && g[0] is USize && g[1] is Bytes && g[2] is Flag);
        }
        if t == 13 {
            assert(ks =~= seq![Kind::USize, Kind::Text, Kind::U16, Kind::Bytes, Kind::U128]);
            assert(n == 5 && g[0] is USize && g[1] is Text && g[2] is U16 && g[3] is Bytes && g[4] is U128);
        }
    }
    let r = match (f0, f1, f2, f3, f4, f5) {
        (
            Some(Val::Text(client)),
            Some(Val::Bytes(public)),
            Some(Val::Text(name)),
            Some(Val::Bytes(other)),
            Some(Val::Flag(privacy)),
            Some(Val::Text(private_adress)),
        ) => Some(
            Packets::Register(Register::Client { client, public, name, other, privacy, private_adress }),
        ),
        (Some(Val::USize(session)), None, None, None, None, None) => if t == 0 {
            Some(Packets::Register(Register::Port { session }))
        } else if t == 2 {
            Some(Packets::UnRegister(UnRegister { session }))
        } else {
            Some(Packets::Tick { session })
        },
        (Some(Val::Flag(accepted)), Some(Val::USize(session)), None, None, None, None) => Some(
            Packets::RegisterResponse(RegisterResponse::Client { accepted, session }),
        ),
        (Some(Val::U16(port)), None, None, None, None, None) => Some(
            Packets::RegisterResponse(RegisterResponse::Port { port }),
        ),
        (
            Some(Val::USize(session)),
            Some(Val::TextFilter(client)),
            Some(Val::TextFilter(name)),
            Some(Val::BytesFilter(other)),
            None,
            None,
        ) => Some(Packets::Search(Search { session, client, name, other })),
        (Some(Val::USize(session)), Some(Val::Adresses(adresses)), None, None, None, None) => Some(
            Packets::SearchResponse(SearchResponse { session, adresses }),
        ),
        (
            Some(Val::Flag(has)),
            Some(Val::Text(name)),
            Some(Val::Text(client)),
            Some(Val::Bytes(other)),
            Some(Val::Bytes(adress)),
            None,
        ) => Some(Packets::Info(Info { has, name, client, other, adress })),
        (Some(Val::Bytes(adress)), Some(Val::USize(session)), None, None, None, None) => Some(
            Packets::InfoRequest(InfoRequest { adress, session }),
        ),
        (Some(Val::USize(session)), Some(Val::Bytes(x)), Some(Val::Text(secret)), None, None, None) => if t == 7 {
            Some(Packets::Request(Request { session, to: x, secret }))
        } else {
            Some(Packets::NewRequest(NewRequest { session, from: x, secret }))
        },
        (
            Some(Val::USize(session)),
            Some(Val::Bytes(x)),
            Some(Val::Flag(accepted)),
            Some(Val::Text(secret)),
            None,
            None,
        ) => if t == 9 {
            Some(Packets::RequestResponse(RequestResponse { session, to: x, accepted, secret }))
        } else {
            Some(Packets::NewRequestResponse(NewRequestResponse { session, from: x, accepted, secret }))
        },
        (
            Some(Val::USize(session)),
            Some(Val::Bytes(to)),
            Some(Val::Flag(accepted)),
            Some(Val::U128(time_offset)),
            None,
            None,
        ) => Some(Packets::RequestFinal(RequestFinal { session, to, accepted, time_offset })),
        (Some(Val::USize(session)), Some(Val::Bytes(from)), Some(Val::Flag(accepted)), None, None, None) => Some(
            Packets::NewRequestFinal(NewRequestFinal { session, from, accepted }),
        ),
        (
            Some(Val::USize(session)),
            Some(Val::Text(to)),
            Some(Val::U16(port)),
            Some(Val::Bytes(adress)),
            Some(Val::U128(time)),
            None,
        ) => Some(Packets::ConnectOn(ConnectOn { session, to, port, adress, time })),
        _ => None,
    };
    proof {
        let p = r.unwrap();
        assert(packet_view(p).2 =~= vals_view(g));
    }
    r
}

/// The bytes of a message, laid out as bytes-kman lays it out.
pub fn encode(p: Packets) -> (r: Vec<u8>)
    ensures
        r@ == wire(p),
{
    let (t, u, vs) = to_vals(p);
    let mut out = kman_u64(t);
    if t < 2 {
        let mut b = kman_u64(u);
        out.append(&mut b);
    }
    let ks = match shape_vec(t, u) {
        Some(ks) => ks,
        None => return out,
    };
    put_vals(&mut out, &ks, &vs);
    out
}

/// The message at the start of `b`, if its bytes hold one; what follows it
/// is ignored.
pub fn decode(b: &[u8]) -> (r: Option<Packets>)
    ensures
        match parse_packet(b@) {
            Some(v) => r matches Some(p) && packet_view(p) == v,
            None => r is None,
        },
{
    let t = match read_u64(b, 0) {
        Some(t) => t,
        None => return None,
    };
    proof {
        assert(b@.skip(0) =~= b@);
    }
    let u = if t < 2 {
        match read_u64(b, 8) {
            Some(u) => u,
            None => return None,
        }
    } else {
        0
    };
    proof {
        if t < 2 {
            assert(b@.skip(8).take(8) =~= b@.subrange(8, 16));
        }
    }
    let start: usize = if t < 2 { 16 } else { 8 };
    let ks = match shape_vec(t, u) {
        Some(ks) => ks,
        None => return None,
    };
    match read_fields(b, start, &ks) {
        Some((vs, _)) => from_vals(t, u, vs),
        None => None,
    }
}

/// The bytes in reverse order.
pub fn reversed(b: &[u8]) -> (r: Vec<u8>)
    ensures
        r@ == b@.reverse(),
{
    let mut r: Vec<u8> = Vec::new();
    let mut i = b.len();
    while i > 0
        invariant
            i <= b@.len(),
            r@ == b@.subrange(i as int, b@.len() as int).reverse(),
        decreases i,
    {
        i -= 1;
        r.push(b[i]);
        assert(r@ =~= b@.subrange(i as int, b@.len() as int).reverse());
    }
    assert(b@.subrange(0, b@.len() as int) =~= b@);
    r
}

/// What goes on the wire for a message: its bytes, last byte first.
pub fn to_wire(p: Packets) -> (r: Vec<u8>)
    ensures
        r@ == wire(p).reverse(),
{
    let b = encode(p);
    reversed(b.as_slice())
}

/// The message that came off the wire as `b` (see `to_wire`).
pub fn from_wire(b: &[u8]) -> (r: Option<Packets>)
    ensures
        match parse_packet(b@.reverse()) {
            Some(v) => r matches Some(p) && packet_view(p) == v,
            None => r is None,
        },
{
    let x = reversed(b);
    decode(x.as_slice())
}

} // verus!
